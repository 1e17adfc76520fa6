//! Object#instance_variable_get, #instance_variable_set and
//! #instance_variable_defined? over an object's instance-variable table.
//! Names are accepted with or without their `@`; immediates (integers,
//! floats, booleans, nil, symbols) are shared by the whole process and so
//! refuse to store anything.

use vstd::prelude::*;
use crate::error::{Error, string_from_chars};
use crate::ivar::IvarMap;
use crate::text::push_all;
use crate::value::RType;

verus! {

/// The stored name for `raw`: `raw` itself when it starts with `@`,
/// otherwise `raw` with `@` in front.
pub open spec fn ivar_key(raw: Seq<u8>) -> Seq<u8> {
    if raw.len() > 0 && raw[0] == 64u8 {
        raw
    } else {
        seq![64u8] + raw
    }
}

/// Types whose values are shared immediates.
pub open spec fn immediate(tt: RType) -> bool {
    tt is Integer || tt is Float || tt is Bool || tt is Nil || tt is Symbol
}

/// `Err(FrozenError(msg))` with the given message text.
pub open spec fn is_frozen_error<T>(r: Result<T, Error>, msg: Seq<char>) -> bool {
    r matches Err(Error::FrozenError(m)) && m@ == msg
}

/// The stored name for `raw`.
pub fn ivar_key_bytes(raw: &[u8]) -> (r: Vec<u8>)
    ensures
        r@ == ivar_key(raw@),
{
    let mut out: Vec<u8> = Vec::new();
    if !(raw.len() > 0 && raw[0] == 64u8) {
        out.push(64u8);
    }
    let ghost head = out@;
    let mut i: usize = 0;
    while i < raw.len()
        invariant
            i <= raw.len(),
            out@ == head + raw@.take(i as int),
        decreases raw.len() - i,
    {
        out.push(raw[i]);
        i += 1;
        assert(raw@.take(i as int) =~= raw@.take(i - 1).push(raw@[i - 1]));
    }
    assert(raw@.take(raw.len() as int) =~= raw@);
    assert(out@ =~= ivar_key(raw@));
    out
}

/// Object#instance_variable_set(name, value) on an object of type `tt`
/// whose class is named `class_name`: an immediate raises FrozenError
/// "can't modify frozen <class>" and stores nothing; any other object stores
/// `value` under the name.
pub fn instance_variable_set<V>(
    ivars: &mut IvarMap<V>,
    tt: RType,
    class_name: &[char],
    raw: &[u8],
    value: V,
) -> (r: Result<(), Error>)
    requires
        old(ivars).wf(),
        old(ivars).count() < usize::MAX / 8,
    ensures
        final(ivars).wf(),
        immediate(tt) ==> is_frozen_error(r, "can't modify frozen "@ + class_name@) && final(ivars)@
            == old(ivars)@,
        !immediate(tt) ==> r is Ok && final(ivars)@ == old(ivars)@.insert(ivar_key(raw@), value),
{
    if tt.is_immediate() {
        let head = [
            'c', 'a', 'n', '\'', 't', ' ', 'm', 'o', 'd', 'i', 'f', 'y', ' ', 'f', 'r', 'o', 'z',
            'e', 'n', ' ',
        ];
        let mut msg: Vec<char> = Vec::new();
        push_all(&mut msg, &head);
        push_all(&mut msg, class_name);
        proof {
            reveal_strlit("can't modify frozen ");
            assert(head@ =~= "can't modify frozen "@);
        }
        return Err(Error::FrozenError(string_from_chars(msg.as_slice())));
    }
    let key = ivar_key_bytes(raw);
    ivars.insert_bytes(key.as_slice(), value);
    Ok(())
}

/// Object#instance_variable_get(name): the value stored under the name, or
/// `None` for nil.
pub fn instance_variable_get<'a, V>(ivars: &'a IvarMap<V>, raw: &[u8]) -> (r: Option<&'a V>)
    requires
        ivars.wf(),
    ensures
        match r {
            Some(v) => ivars@.contains_key(ivar_key(raw@)) && *v == ivars@[ivar_key(raw@)],
            None => !ivars@.contains_key(ivar_key(raw@)),
        },
{
    let key = ivar_key_bytes(raw);
    ivars.get_bytes(key.as_slice())
}

/// Object#instance_variable_defined?(name).
pub fn instance_variable_defined<V>(ivars: &IvarMap<V>, raw: &[u8]) -> (r: bool)
    requires
        ivars.wf(),
    ensures
        r == ivars@.contains_key(ivar_key(raw@)),
{
    let key = ivar_key_bytes(raw);
    ivars.get_bytes(key.as_slice()).is_some()
}

} // verus!
