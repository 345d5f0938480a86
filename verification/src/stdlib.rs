//! The methods of strings, arrays and numbers, looked up by name.
use vstd::prelude::*;
use crate::object::{NativeFn, Object};
use crate::text::{owned, str_eq};

verus! {

/// The string method called `name`, if there is one.
pub open spec fn string_method(name: Seq<char>) -> Option<NativeFn> {
    if name == "split"@ { Some(NativeFn::StringSplit) }
    else if name == "len"@ { Some(NativeFn::StringLen) }
    else if name == "trim"@ { Some(NativeFn::StringTrim) }
    else if name == "to_upper"@ { Some(NativeFn::StringToUpper) }
    else if name == "to_lower"@ { Some(NativeFn::StringToLower) }
    else { None }
}

/// The array method called `name`, if there is one.
pub open spec fn array_method(name: Seq<char>) -> Option<NativeFn> {
    if name == "push"@ { Some(NativeFn::ArrayPush) }
    else if name == "pop"@ { Some(NativeFn::ArrayPop) }
    else if name == "len"@ { Some(NativeFn::ArrayLen) }
    else if name == "join"@ { Some(NativeFn::ArrayJoin) }
    else { None }
}

/// The number method called `name`, if there is one.
pub open spec fn number_method(name: Seq<char>) -> Option<NativeFn> {
    if name == "to_string"@ { Some(NativeFn::NumberToString) }
    else if name == "abs"@ { Some(NativeFn::NumberAbs) }
    else if name == "round"@ { Some(NativeFn::NumberRound) }
    else if name == "floor"@ { Some(NativeFn::NumberFloor) }
    else if name == "ceil"@ { Some(NativeFn::NumberCeil) }
    else { None }
}

/// The method, or the atom `:null` when there is none.
pub open spec fn method_or_null(m: Option<NativeFn>, o: Object) -> bool {
    match m {
        Some(f) => o == Object::Native(f),
        None => o matches Object::Atom(s) && s@ == "null"@,
    }
}

/// The string method called `name`, or `:null`.
pub fn get_string_method(name: &str) -> (o: Object)
    ensures
        method_or_null(string_method(name@), o),
{
    if str_eq(name, "split") { Object::Native(NativeFn::StringSplit) }
    else if str_eq(name, "len") { Object::Native(NativeFn::StringLen) }
    else if str_eq(name, "trim") { Object::Native(NativeFn::StringTrim) }
    else if str_eq(name, "to_upper") { Object::Native(NativeFn::StringToUpper) }
    else if str_eq(name, "to_lower") { Object::Native(NativeFn::StringToLower) }
    else { Object::Atom(owned("null")) }
}

/// The array method called `name`, or `:null`.
pub fn get_array_method(name: &str) -> (o: Object)
    ensures
        method_or_null(array_method(name@), o),
{
    if str_eq(name, "push") { Object::Native(NativeFn::ArrayPush) }
    else if str_eq(name, "pop") { Object::Native(NativeFn::ArrayPop) }
    else if str_eq(name, "len") { Object::Native(NativeFn::ArrayLen) }
    else if str_eq(name, "join") { Object::Native(NativeFn::ArrayJoin) }
    else { Object::Atom(owned("null")) }
}

/// The number method called `name`, or `:null`.
pub fn get_number_method(name: &str) -> (o: Object)
    ensures
        method_or_null(number_method(name@), o),
{
    if str_eq(name, "to_string") { Object::Native(NativeFn::NumberToString) }
    else if str_eq(name, "abs") { Object::Native(NativeFn::NumberAbs) }
    else if str_eq(name, "round") { Object::Native(NativeFn::NumberRound) }
    else if str_eq(name, "floor") { Object::Native(NativeFn::NumberFloor) }
    else if str_eq(name, "ceil") { Object::Native(NativeFn::NumberCeil) }
    else { Object::Atom(owned("null")) }
}

} // verus!
