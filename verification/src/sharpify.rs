//! The bindings generator: from the messages that the client sends and
//! receives, and from shared constants, it writes the C# side of the bridge
//! and the Rust functions that the C# side calls.
//!
//! Field types arrive as token text (`Vec < String >`, `HashMap < String ,
//! u64 >`). A type that the C# side cannot name makes the whole generation
//! fail: the functions then return `None`.

use convert_case::Casing;
use quote::ToTokens;
use syn::spanned::Spanned;
use vstd::prelude::*;
use crate::text::{
    decimal,
    decimal_string,
    ends_with,
    find_char,
    is_white,
    lead_white,
    trail_white,
    lemma_find_char_bound,
    lemma_trimmed_len,
    split_once_char,
    starts_with,
    str_eq,
    trim,
    trimmed,
};

verus! {

/// A Rust type that crosses the bridge by value.
pub open spec fn rust_prim(t: Seq<char>) -> bool {
    ||| t == "i8"@
    ||| t == "u8"@
    ||| t == "i16"@
    ||| t == "u16"@
    ||| t == "i32"@
    ||| t == "u32"@
    ||| t == "i64"@
    ||| t == "u64"@
    ||| t == "isize"@
    ||| t == "usize"@
    ||| t == "bool"@
    ||| t == "f32"@
    ||| t == "f64"@
}

/// Whether `ty` is a type that crosses the bridge by value.
pub fn is_rust_prim(ty: &str) -> (b: bool)
    ensures
        b == rust_prim(ty@),
{
    str_eq(ty, "i8") || str_eq(ty, "u8") || str_eq(ty, "i16") || str_eq(ty, "u16") || str_eq(
        ty,
        "i32",
    ) || str_eq(ty, "u32") || str_eq(ty, "i64") || str_eq(ty, "u64") || str_eq(ty, "isize")
        || str_eq(ty, "usize") || str_eq(ty, "bool") || str_eq(ty, "f32") || str_eq(ty, "f64")
}

/// The C# name of a Rust type, or `None` where C# has none for it. Lists
/// become `List<..>`, maps `Dictionary<..>`, and a comma-separated pair of
/// types is named part by part. `isize` and `usize` follow the width of
/// the machine that generates.
pub open spec fn cs_type(ty: Seq<char>) -> Option<Seq<char>>
    decreases ty.len(),
{
    let t = trimmed(ty);
    if t == "String"@ {
        Some("string"@)
    } else if t == "i8"@ {
        Some("sbyte"@)
    } else if t == "u8"@ {
        Some("byte"@)
    } else if t == "i16"@ {
        Some("Int16"@)
    } else if t == "u16"@ {
        Some("UInt16"@)
    } else if t == "i32"@ {
        Some("Int32"@)
    } else if t == "u32"@ {
        Some("UInt32"@)
    } else if t == "i64"@ {
        Some("Int64"@)
    } else if t == "u64"@ {
        Some("UInt64"@)
    } else if t == "isize"@ {
        if usize::BITS == 64 {
            Some("Int64"@)
        } else {
            Some("Int32"@)
        }
    } else if t == "usize"@ {
        if usize::BITS == 64 {
            Some("UInt64"@)
        } else {
            Some("Int64"@)
        }
    } else if t == "bool"@ {
        Some("bool"@)
    } else if t == "f32"@ {
        Some("float"@)
    } else if t == "f64"@ {
        Some("double"@)
    } else if "Vec < "@.is_prefix_of(t) && " >"@.is_suffix_of(t) {
        if t.len() < "Vec < "@.len() + " >"@.len() {
            None
        } else {
            proof {
                lemma_trimmed_len(ty);
                reveal_strlit("Vec < ");
            }
            match cs_type(t.subrange("Vec < "@.len() as int, t.len() - " >"@.len())) {
                Some(x) => Some("List<"@ + x + ">"@),
                None => None,
            }
        }
    } else if "HashMap < "@.is_prefix_of(t) && " >"@.is_suffix_of(t) {
        if t.len() < "HashMap < "@.len() + " >"@.len() {
            None
        } else {
            proof {
                lemma_trimmed_len(ty);
                reveal_strlit("HashMap < ");
            }
            match cs_type(t.subrange("HashMap < "@.len() as int, t.len() - " >"@.len())) {
                Some(x) => Some("Dictionary<"@ + x + ">"@),
                None => None,
            }
        }
    } else {
        match find_char(t, ',') {
            Some(k) => {
                proof {
                    lemma_trimmed_len(ty);
                    lemma_find_char_bound(t, ',');
                }
                match (cs_type(t.subrange(0, k as int)), cs_type(t.subrange((k + 1) as int, t.len() as int))) {
                    (Some(a), Some(b)) => Some(a + ", "@ + b),
                    _ => None,
                }
            },
            None => None,
        }
    }
}

/// The characters of a C# name as an owned string.
fn owned(s: &str) -> (r: String)
    ensures
        r@ == s@,
{
    String::from_str(s)
}

/// `a`, then `x`, then `b`.
fn wrapped(a: &str, x: &str, b: &str) -> (r: String)
    ensures
        r@ == a@ + x@ + b@,
{
    let mut r = String::from_str(a);
    r.append(x);
    r.append(b);
    r
}

/// A text that neither starts nor ends with white space is its own trim.
proof fn lemma_trimmed_plain(s: Seq<char>)
    requires
        s.len() > 0,
        !is_white(s[0]),
        !is_white(s.last()),
    ensures
        trimmed(s) == s,
{
    assert(lead_white(s) == 0);
    let r = s.subrange(0, s.len() as int);
    assert(r =~= s);
    assert(trail_white(r) == 0);
    assert(r.subrange(0, r.len() as int) =~= s);
}

/// The C# names of the primitive Rust types, one by one: signed `iN`
/// become `IntN` (`sbyte` for 8 bits), unsigned `uN` become `UIntN`
/// (`byte` for 8 bits), `String` is `string`, `bool` is `bool`, `f32` is
/// `float` and `f64` is `double`.
pub proof fn lemma_primitive_cs_names()
    ensures
        cs_type("String"@) == Some("string"@),
        cs_type("i8"@) == Some("sbyte"@),
        cs_type("u8"@) == Some("byte"@),
        cs_type("i16"@) == Some("Int16"@),
        cs_type("u16"@) == Some("UInt16"@),
        cs_type("i32"@) == Some("Int32"@),
        cs_type("u32"@) == Some("UInt32"@),
        cs_type("i64"@) == Some("Int64"@),
        cs_type("u64"@) == Some("UInt64"@),
        cs_type("bool"@) == Some("bool"@),
        cs_type("f32"@) == Some("float"@),
        cs_type("f64"@) == Some("double"@),
        usize::BITS == 64 ==> cs_type("isize"@) == Some("Int64"@) && cs_type("usize"@) == Some("UInt64"@),
{
    reveal_strlit("String");
    reveal_strlit("i8");
    reveal_strlit("u8");
    reveal_strlit("i16");
    reveal_strlit("u16");
    reveal_strlit("i32");
    reveal_strlit("u32");
    reveal_strlit("i64");
    reveal_strlit("u64");
    reveal_strlit("isize");
    reveal_strlit("usize");
    reveal_strlit("bool");
    reveal_strlit("f32");
    reveal_strlit("f64");
    lemma_trimmed_plain("String"@);
    lemma_trimmed_plain("i8"@);
    lemma_trimmed_plain("u8"@);
    lemma_trimmed_plain("i16"@);
    lemma_trimmed_plain("u16"@);
    lemma_trimmed_plain("i32"@);
    lemma_trimmed_plain("u32"@);
    lemma_trimmed_plain("i64"@);
    lemma_trimmed_plain("u64"@);
    lemma_trimmed_plain("isize"@);
    lemma_trimmed_plain("usize"@);
    lemma_trimmed_plain("bool"@);
    lemma_trimmed_plain("f32"@);
    lemma_trimmed_plain("f64"@);
    assert("i8"@ != "String"@);
    assert("u8"@ != "String"@ && "u8"@ != "i8"@) by {
        assert("u8"@[0] != "i8"@[0]);
    }
    assert("i16"@ != "String"@ && "i16"@ != "i8"@ && "i16"@ != "u8"@);
    assert("u16"@ != "String"@ && "u16"@ != "i8"@ && "u16"@ != "u8"@ && "u16"@ != "i16"@) by {
        assert("u16"@[0] != "i16"@[0]);
    }
    assert("i32"@ != "String"@ && "i32"@ != "i8"@ && "i32"@ != "u8"@ && "i32"@ != "i16"@ && "i32"@ != "u16"@) by {
        assert("i32"@[1] != "i16"@[1]);
        assert("i32"@[0] != "u16"@[0]);
    }
    assert("u32"@ != "String"@ && "u32"@ != "i8"@ && "u32"@ != "u8"@ && "u32"@ != "i16"@ && "u32"@ != "u16"@ && "u32"@ != "i32"@) by {
        assert("u32"@[0] != "i16"@[0]);
        assert("u32"@[1] != "u16"@[1]);
        assert("u32"@[0] != "i32"@[0]);
    }
    assert("i64"@ != "String"@ && "i64"@ != "i8"@ && "i64"@ != "u8"@ && "i64"@ != "i16"@ && "i64"@ != "u16"@ && "i64"@ != "i32"@
        && "i64"@ != "u32"@) by {
        assert("i64"@[1] != "i16"@[1]);
        assert("i64"@[0] != "u16"@[0]);
        assert("i64"@[1] != "i32"@[1]);
        assert("i64"@[0] != "u32"@[0]);
    }
    assert("u64"@ != "String"@ && "u64"@ != "i8"@ && "u64"@ != "u8"@ && "u64"@ != "i16"@ && "u64"@ != "u16"@ && "u64"@ != "i32"@
        && "u64"@ != "u32"@ && "u64"@ != "i64"@) by {
        assert("u64"@[0] != "i16"@[0]);
        assert("u64"@[1] != "u16"@[1]);
        assert("u64"@[0] != "i32"@[0]);
        assert("u64"@[1] != "u32"@[1]);
        assert("u64"@[0] != "i64"@[0]);
    }
    assert("isize"@ != "String"@ && "isize"@ != "i8"@ && "isize"@ != "u8"@ && "isize"@ != "i16"@ && "isize"@ != "u16"@
        && "isize"@ != "i32"@ && "isize"@ != "u32"@ && "isize"@ != "i64"@ && "isize"@ != "u64"@);
    assert("usize"@ != "String"@ && "usize"@ != "i8"@ && "usize"@ != "u8"@ && "usize"@ != "i16"@ && "usize"@ != "u16"@
        && "usize"@ != "i32"@ && "usize"@ != "u32"@ && "usize"@ != "i64"@ && "usize"@ != "u64"@ && "usize"@ != "isize"@) by {
        assert("usize"@[0] != "isize"@[0]);
    }
    assert("bool"@ != "String"@ && "bool"@ != "i8"@ && "bool"@ != "u8"@ && "bool"@ != "i16"@ && "bool"@ != "u16"@
        && "bool"@ != "i32"@ && "bool"@ != "u32"@ && "bool"@ != "i64"@ && "bool"@ != "u64"@ && "bool"@ != "isize"@
        && "bool"@ != "usize"@);
    assert("f32"@ != "String"@ && "f32"@ != "i8"@ && "f32"@ != "u8"@ && "f32"@ != "i16"@ && "f32"@ != "u16"@
        && "f32"@ != "i32"@ && "f32"@ != "u32"@ && "f32"@ != "i64"@ && "f32"@ != "u64"@ && "f32"@ != "isize"@
        && "f32"@ != "usize"@ && "f32"@ != "bool"@) by {
        assert("f32"@[0] != "i16"@[0]);
        assert("f32"@[0] != "u16"@[0]);
        assert("f32"@[0] != "i32"@[0]);
        assert("f32"@[0] != "u32"@[0]);
        assert("f32"@[0] != "i64"@[0]);
        assert("f32"@[0] != "u64"@[0]);
    }
    assert("f64"@ != "String"@ && "f64"@ != "i8"@ && "f64"@ != "u8"@ && "f64"@ != "i16"@ && "f64"@ != "u16"@
        && "f64"@ != "i32"@ && "f64"@ != "u32"@ && "f64"@ != "i64"@ && "f64"@ != "u64"@ && "f64"@ != "isize"@
        && "f64"@ != "usize"@ && "f64"@ != "bool"@ && "f64"@ != "f32"@) by {
        assert("f64"@[0] != "i16"@[0]);
        assert("f64"@[0] != "u16"@[0]);
        assert("f64"@[0] != "i32"@[0]);
        assert("f64"@[0] != "u32"@[0]);
        assert("f64"@[0] != "i64"@[0]);
        assert("f64"@[0] != "u64"@[0]);
        assert("f64"@[1] != "f32"@[1]);
    }
}

/// The C# name of the Rust type `ty` (see `cs_type`), or `None` where it
/// has none.
pub fn csharp_type_of(ty: &str) -> (r: Option<String>)
    ensures
        match r {
            Some(s) => cs_type(ty@) == Some(s@),
            None => cs_type(ty@) is None,
        },
    decreases ty@.len(),
{
    proof {
        lemma_trimmed_len(ty@);
    }
    let t = trim(ty);
    if str_eq(t, "String") {
        Some(owned("string"))
    } else if str_eq(t, "i8") {
        Some(owned("sbyte"))
    } else if str_eq(t, "u8") {
        Some(owned("byte"))
    } else if str_eq(t, "i16") {
        Some(owned("Int16"))
    } else if str_eq(t, "u16") {
        Some(owned("UInt16"))
    } else if str_eq(t, "i32") {
        Some(owned("Int32"))
    } else if str_eq(t, "u32") {
        Some(owned("UInt32"))
    } else if str_eq(t, "i64") {
        Some(owned("Int64"))
    } else if str_eq(t, "u64") {
        Some(owned("UInt64"))
    } else if str_eq(t, "isize") {
        if usize::BITS == 64 {
            Some(owned("Int64"))
        } else {
            Some(owned("Int32"))
        }
    } else if str_eq(t, "usize") {
        if usize::BITS == 64 {
            Some(owned("UInt64"))
        } else {
            Some(owned("Int64"))
        }
    } else if str_eq(t, "bool") {
        Some(owned("bool"))
    } else if str_eq(t, "f32") {
        Some(owned("float"))
    } else if str_eq(t, "f64") {
        Some(owned("double"))
    } else if starts_with(t, "Vec < ") && ends_with(t, " >") {
        let n = t.unicode_len();
        let lp = "Vec < ".unicode_len();
        proof {
            reveal_strlit("Vec < ");
        }
        let ls = " >".unicode_len();
        if n - ls < lp {
            None
        } else {
            match csharp_type_of(t.substring_char(lp, n - ls)) {
                Some(x) => Some(wrapped("List<", x.as_str(), ">")),
                None => None,
            }
        }
    } else if starts_with(t, "HashMap < ") && ends_with(t, " >") {
        let n = t.unicode_len();
        let lp = "HashMap < ".unicode_len();
        proof {
            reveal_strlit("HashMap < ");
        }
        let ls = " >".unicode_len();
        if n - ls < lp {
            None
        } else {
            match csharp_type_of(t.substring_char(lp, n - ls)) {
                Some(x) => Some(wrapped("Dictionary<", x.as_str(), ">")),
                None => None,
            }
        }
    } else {
        proof {
            lemma_find_char_bound(t@, ',');
        }
        match split_once_char(t, ',') {
            Some((a, b)) => {
                match (csharp_type_of(a), csharp_type_of(b)) {
                    (Some(x), Some(y)) => Some(wrapped(x.as_str(), ", ", y.as_str())),
                    _ => None,
                }
            },
            None => None,
        }
    }
}

/// What `snake_case` gives for a name: convert_case's snake case.
pub uninterp spec fn snake_name(s: Seq<char>) -> Seq<char>;

/// `convert_case::Casing::to_case` with `Case::Snake`: the words of `s`,
/// lower-cased and joined by underscores. Nothing more of the result is
/// claimed than that it is the crate's function of `s`.
#[verifier::external_body]
fn snake_case(s: &str) -> (r: String)
    ensures
        r@ == snake_name(s@),
{
    s.to_case(convert_case::Case::Snake)
}

/// Every type that crosses the bridge by value has a C# name.
pub proof fn lemma_prim_has_cs_type(t: Seq<char>)
    requires
        rust_prim(t),
    ensures
        cs_type(t) is Some,
{
    reveal_strlit("i8");
    reveal_strlit("u8");
    reveal_strlit("i16");
    reveal_strlit("u16");
    reveal_strlit("i32");
    reveal_strlit("u32");
    reveal_strlit("i64");
    reveal_strlit("u64");
    reveal_strlit("isize");
    reveal_strlit("usize");
    reveal_strlit("bool");
    reveal_strlit("f32");
    reveal_strlit("f64");
    assert(lead_white(t) == 0);
    assert(t.subrange(0, t.len() as int) =~= t);
    assert(trail_white(t) == 0);
    assert(trimmed(t) =~= t);
}

/// The C# line that readies argument `n` of type `t` for the call into
/// Rust: values are passed on, anything else is packed with MessagePack.
pub open spec fn cs_conv_text(n: Seq<char>, t: Seq<char>) -> Seq<char> {
    if rust_prim(t) {
        "var "@ + n + "_conv = "@ + n + ";"@
    } else {
        "byte[] "@ + n + "_conv = MessagePackSerializer.Serialize("@ + n
            + ");\n        UInt32 "@ + n + "_len = (UInt32)"@ + n + "_conv.Length;"@
    }
}

/// See `cs_conv_text`.
pub fn csharp_gen_conv(name: &str, ty: &str) -> (r: String)
    ensures
        r@ == cs_conv_text(name@, ty@),
{
    let mut r = String::new();
    if is_rust_prim(ty) {
        r.append("var ");
        r.append(name);
        r.append("_conv = ");
        r.append(name);
        r.append(";");
    } else {
        r.append("byte[] ");
        r.append(name);
        r.append("_conv = MessagePackSerializer.Serialize(");
        r.append(name);
        r.append(");\n        UInt32 ");
        r.append(name);
        r.append("_len = (UInt32)");
        r.append(name);
        r.append("_conv.Length;");
    }
    r
}

/// The C# line that unpacks callback argument `n` of type `t`; `None` where
/// `t` has no C# name.
pub open spec fn cs_de_conv_text(n: Seq<char>, t: Seq<char>) -> Option<Seq<char>> {
    if rust_prim(t) {
        Some("                var "@ + n + "_conv = "@ + n + ";"@)
    } else {
        match cs_type(t) {
            Some(x) => Some(
                "                var "@ + n + "_conv = MessagePackSerializer.Deserialize<"@ + x
                    + ">("@ + n + ");"@,
            ),
            None => None,
        }
    }
}

/// See `cs_de_conv_text`.
pub fn csharp_gen_de_conv(name: &str, ty: &str) -> (r: Option<String>)
    ensures
        match r {
            Some(s) => cs_de_conv_text(name@, ty@) == Some(s@),
            None => cs_de_conv_text(name@, ty@) is None,
        },
{
    if is_rust_prim(ty) {
        let mut r = String::new();
        r.append("                var ");
        r.append(name);
        r.append("_conv = ");
        r.append(name);
        r.append(";");
        Some(r)
    } else {
        match csharp_type_of(ty) {
            Some(x) => {
                let mut r = String::new();
                r.append("                var ");
                r.append(name);
                r.append("_conv = MessagePackSerializer.Deserialize<");
                r.append(x.as_str());
                r.append(">(");
                r.append(name);
                r.append(");");
                Some(r)
            },
            None => None,
        }
    }
}

/// The Rust parameter types of a callback argument of type `t`.
pub open spec fn rust_type_text(t: Seq<char>) -> Seq<char> {
    if rust_prim(t) {
        t
    } else {
        " *const std::ffi::c_char, u32"@
    }
}

/// See `rust_type_text`.
pub fn rust_type<'a>(ty: &'a str) -> (r: &'a str)
    ensures
        r@ == rust_type_text(ty@),
{
    if is_rust_prim(ty) {
        ty
    } else {
        " *const std::ffi::c_char, u32"
    }
}

/// The Rust parameter type of argument `n` of type `t`, with the length
/// parameter that follows a packed argument.
pub open spec fn rust_gen_type_text(n: Seq<char>, t: Seq<char>) -> Seq<char> {
    if rust_prim(t) {
        t
    } else {
        "*const std::ffi::c_char, "@ + n + "_len: u32"@
    }
}

/// See `rust_gen_type_text`.
pub fn rust_gen_type(name: &str, ty: &str) -> (r: String)
    ensures
        r@ == rust_gen_type_text(name@, ty@),
{
    if is_rust_prim(ty) {
        owned(ty)
    } else {
        wrapped("*const std::ffi::c_char, ", name, "_len: u32")
    }
}

/// The Rust lines that unpack a packed argument `a`; nothing for a value.
pub open spec fn rust_convert_arg_text(a: Seq<char>, t: Seq<char>) -> Seq<char> {
    if rust_prim(t) {
        Seq::empty()
    } else {
        "let "@ + a + " = unsafe { std::slice::from_raw_parts("@ + a + " as *const u8, "@ + a
            + "_len as usize) };\n    let "@ + a + " = rmp_serde::from_slice("@ + a
            + ").unwrap();\n"@
    }
}

/// See `rust_convert_arg_text`.
pub fn rust_convert_arg(arg: &str, ty: &str) -> (r: String)
    ensures
        r@ == rust_convert_arg_text(arg@, ty@),
{
    let mut r = String::new();
    if !is_rust_prim(ty) {
        r.append("let ");
        r.append(arg);
        r.append(" = unsafe { std::slice::from_raw_parts(");
        r.append(arg);
        r.append(" as *const u8, ");
        r.append(arg);
        r.append("_len as usize) };\n    let ");
        r.append(arg);
        r.append(" = rmp_serde::from_slice(");
        r.append(arg);
        r.append(").unwrap();\n");
    }
    proof {
        if rust_prim(ty@) {
            assert(r@ =~= Seq::<char>::empty());
        }
    }
    r
}

/// The Rust lines that pack a callback argument `a` before the call.
pub open spec fn rust_poll_pre_text(a: Seq<char>, t: Seq<char>) -> Seq<char> {
    if rust_prim(t) {
        Seq::empty()
    } else {
        "let ("@ + a + ", "@ + a + "_len, "@ + a + "_size) = rmp_serde::to_vec(&"@ + a
            + ").unwrap().into_raw_parts();\nlet "@ + a + "_len = "@ + a + "_len as u32;\nlet "@
            + a + " = "@ + a + " as *const i8;"@
    }
}

/// See `rust_poll_pre_text`.
pub fn rust_poll_pre(arg: &str, ty: &str) -> (r: String)
    ensures
        r@ == rust_poll_pre_text(arg@, ty@),
{
    let mut r = String::new();
    if !is_rust_prim(ty) {
        r.append("let (");
        r.append(arg);
        r.append(", ");
        r.append(arg);
        r.append("_len, ");
        r.append(arg);
        r.append("_size) = rmp_serde::to_vec(&");
        r.append(arg);
        r.append(").unwrap().into_raw_parts();\nlet ");
        r.append(arg);
        r.append("_len = ");
        r.append(arg);
        r.append("_len as u32;\nlet ");
        r.append(arg);
        r.append(" = ");
        r.append(arg);
        r.append(" as *const i8;");
    }
    proof {
        if rust_prim(ty@) {
            assert(r@ =~= Seq::<char>::empty());
        }
    }
    r
}

/// The Rust line that frees a packed callback argument `a` after the call.
pub open spec fn rust_poll_suf_text(a: Seq<char>, t: Seq<char>) -> Seq<char> {
    if rust_prim(t) {
        Seq::empty()
    } else {
        "_ = Vec::from_raw_parts("@ + a + " as *mut i8, "@ + a + "_len as usize, "@ + a
            + "_size);"@
    }
}

/// See `rust_poll_suf_text`.
pub fn rust_poll_suf(arg: &str, ty: &str) -> (r: String)
    ensures
        r@ == rust_poll_suf_text(arg@, ty@),
{
    let mut r = String::new();
    if !is_rust_prim(ty) {
        r.append("_ = Vec::from_raw_parts(");
        r.append(arg);
        r.append(" as *mut i8, ");
        r.append(arg);
        r.append("_len as usize, ");
        r.append(arg);
        r.append("_size);");
    }
    proof {
        if rust_prim(ty@) {
            assert(r@ =~= Seq::<char>::empty());
        }
    }
    r
}

/// The C# declaration of argument `n` of type `t` in an imported function,
/// `index` being its position among the native parameters: a value keeps
/// its type; anything else becomes a byte array whose length follows it.
pub open spec fn ffi_text(index: nat, n: Seq<char>, t: Seq<char>) -> Seq<char> {
    if rust_prim(t) {
        cs_type(t)->0 + " "@ + n
    } else {
        "[MarshalAs(UnmanagedType.LPArray, SizeParamIndex="@ + decimal(index + 1)
            + ")] byte[] "@ + n + ", UInt32 "@ + n + "_len"@
    }
}

/// How many native parameters argument of type `t` adds beyond one.
pub open spec fn ffi_extra(t: Seq<char>) -> nat {
    if rust_prim(t) {
        0
    } else {
        1
    }
}

/// See `ffi_text` and `ffi_extra`.
pub fn ffi_type(index: usize, name: &str, ty: &str) -> (r: (usize, String))
    requires
        index < usize::MAX,
    ensures
        r.0 == ffi_extra(ty@),
        r.1@ == ffi_text(index as nat, name@, ty@),
{
    if is_rust_prim(ty) {
        proof {
            lemma_prim_has_cs_type(ty@);
        }
        let x = match csharp_type_of(ty) {
            Some(x) => x,
            None => String::new(),
        };
        (0, wrapped(x.as_str(), " ", name))
    } else {
        let mut r = String::from_str("[MarshalAs(UnmanagedType.LPArray, SizeParamIndex=");
        let k = decimal_string((index + 1) as u64);
        r.append(k.as_str());
        r.append(")] byte[] ");
        r.append(name);
        r.append(", UInt32 ");
        r.append(name);
        r.append("_len");
        (1, r)
    }
}

/// The fields of one message variant as the parser hands them over: each
/// named field with its type text, or the type texts of a tuple variant.
pub enum Fields {
    Named(Vec<(String, String)>),
    Unnamed(Vec<String>),
    Unit,
}

/// One variant of a message enum.
pub struct Variant {
    pub name: String,
    pub fields: Fields,
}

/// Name and type text of each argument of a variant with fields `f`; the
/// fields of a tuple variant are called `arg0`, `arg1`, ...
pub open spec fn fields_args(f: Fields) -> Seq<(Seq<char>, Seq<char>)> {
    match f {
        Fields::Named(v) => v@.map_values(|p: (String, String)| (p.0@, p.1@)),
        Fields::Unnamed(v) => Seq::new(v@.len(), |i: int| ("arg"@ + decimal(i as nat), v@[i]@)),
        Fields::Unit => Seq::empty(),
    }
}

/// The arguments of variant `v` (see `fields_args`).
pub open spec fn variant_args(v: Variant) -> Seq<(Seq<char>, Seq<char>)> {
    fields_args(v.fields)
}

/// Pairs of strings, by their characters.
pub open spec fn pairs_view(a: Seq<(String, String)>) -> Seq<(Seq<char>, Seq<char>)> {
    a.map_values(|p: (String, String)| (p.0@, p.1@))
}

/// The arguments of a variant with fields `f` (see `fields_args`).
pub fn args_of(f: &Fields) -> (r: Vec<(String, String)>)
    ensures
        pairs_view(r@) == fields_args(*f),
{
    let mut r: Vec<(String, String)> = Vec::new();
    match f {
        Fields::Named(v) => {
            let n = v.len();
            for i in 0..n
                invariant
                    n == v@.len(),
                    r@.len() == i,
                    forall|k: int|
                        0 <= k < i ==> (#[trigger] r@[k]).0@ == v@[k].0@ && r@[k].1@ == v@[k].1@,
            {
                r.push((v[i].0.clone(), v[i].1.clone()));
            }
            proof {
                assert(pairs_view(r@) =~= fields_args(*f));
            }
        },
        Fields::Unnamed(v) => {
            let n = v.len();
            for i in 0..n
                invariant
                    n == v@.len(),
                    r@.len() == i,
                    forall|k: int|
                        0 <= k < i ==> (#[trigger] r@[k]).0@ == "arg"@ + decimal(k as nat)
                            && r@[k].1@ == v@[k]@,
            {
                let mut name = String::from_str("arg");
                let d = decimal_string(i as u64);
                name.append(d.as_str());
                r.push((name, v[i].clone()));
            }
            proof {
                assert(pairs_view(r@) =~= fields_args(*f));
            }
        },
        Fields::Unit => {
            proof {
                assert(pairs_view(r@) =~= fields_args(*f));
            }
        },
    }
    r
}

/// Every argument type in `a` has a C# name.
pub open spec fn args_typed(a: Seq<(Seq<char>, Seq<char>)>) -> bool {
    forall|k: int| 0 <= k < a.len() ==> (#[trigger] cs_type(a[k].1)) is Some
}

/// How many of the arguments in `a` are packed.
pub open spec fn nonprim_count(a: Seq<(Seq<char>, Seq<char>)>) -> nat
    decreases a.len(),
{
    if a.len() == 0 {
        0
    } else {
        nonprim_count(a.drop_last()) + ffi_extra(a.last().1)
    }
}

/// The C# parameter list of a send method: type and name of each argument.
pub open spec fn send_params(a: Seq<(Seq<char>, Seq<char>)>) -> Seq<char>
    decreases a.len(),
{
    if a.len() == 0 {
        Seq::empty()
    } else {
        let p = send_params(a.drop_last());
        (if a.len() == 1 {
            p
        } else {
            p + ", "@
        }) + cs_type(a.last().1)->0 + " "@ + a.last().0
    }
}

/// The native parameters after the client pointer, each preceded by a
/// comma.
pub open spec fn send_ffi(a: Seq<(Seq<char>, Seq<char>)>) -> Seq<char>
    decreases a.len(),
{
    if a.len() == 0 {
        Seq::empty()
    } else {
        send_ffi(a.drop_last()) + ", "@ + ffi_text(
            ((a.len() - 1) + nonprim_count(a.drop_last())) as nat,
            a.last().0,
            a.last().1,
        )
    }
}

/// The arguments of the native call after the client pointer.
pub open spec fn send_call(a: Seq<(Seq<char>, Seq<char>)>) -> Seq<char>
    decreases a.len(),
{
    if a.len() == 0 {
        Seq::empty()
    } else {
        let p = send_call(a.drop_last());
        let n = a.last().0;
        if rust_prim(a.last().1) {
            p + ", "@ + n
        } else {
            p + ", "@ + n + "_conv, "@ + n + "_len"@
        }
    }
}

/// The C# lines that ready every argument.
pub open spec fn send_convs(a: Seq<(Seq<char>, Seq<char>)>) -> Seq<char>
    decreases a.len(),
{
    if a.len() == 0 {
        Seq::empty()
    } else {
        send_convs(a.drop_last()) + cs_conv_text(a.last().0, a.last().1)
    }
}

/// The Rust parameters after the client pointer.
pub open spec fn send_rust_params(a: Seq<(Seq<char>, Seq<char>)>) -> Seq<char>
    decreases a.len(),
{
    if a.len() == 0 {
        Seq::empty()
    } else {
        send_rust_params(a.drop_last()) + ", "@ + a.last().0 + ": "@ + rust_gen_type_text(
            a.last().0,
            a.last().1,
        )
    }
}

/// The Rust lines that unpack every packed argument.
pub open spec fn send_unpack(a: Seq<(Seq<char>, Seq<char>)>) -> Seq<char>
    decreases a.len(),
{
    if a.len() == 0 {
        Seq::empty()
    } else {
        send_unpack(a.drop_last()) + rust_convert_arg_text(a.last().0, a.last().1)
    }
}

/// The argument names, separated by commas.
pub open spec fn arg_names(a: Seq<(Seq<char>, Seq<char>)>) -> Seq<char>
    decreases a.len(),
{
    if a.len() == 0 {
        Seq::empty()
    } else {
        let p = arg_names(a.drop_last());
        (if p.len() == 0 {
            p
        } else {
            p + ", "@
        }) + a.last().0
    }
}

/// The name of the native function that sends variant `name`.
pub open spec fn send_fn_name(name: Seq<char>) -> Seq<char> {
    "client_send_"@ + snake_name(name)
}

/// The arguments of the request built from the native call, in brackets;
/// nothing for a variant without fields.
pub open spec fn request_args(a: Seq<(Seq<char>, Seq<char>)>) -> Seq<char> {
    if arg_names(a).len() == 0 {
        Seq::empty()
    } else {
        "("@ + arg_names(a) + ")"@
    }
}

/// The C# method that sends variant `name` with arguments `a`.
pub open spec fn send_cs_text(name: Seq<char>, a: Seq<(Seq<char>, Seq<char>)>) -> Seq<char> {
    "\npublic void Send"@ + name + "("@ + send_params(a)
        + ") {\n    unsafe {\n        [DllImport(\"blastcap\", SetLastError = true)]\n        static extern void "@
        + send_fn_name(name) + "("@ + "void* ptr"@ + send_ffi(a) + ");\n        "@ + send_convs(a)
        + "\n        "@ + send_fn_name(name) + "("@ + "this._inner"@ + send_call(a)
        + ");\n    }\n}\n"@
}

/// The native Rust function that sends variant `name` with arguments `a`.
pub open spec fn send_rust_text(name: Seq<char>, a: Seq<(Seq<char>, Seq<char>)>) -> Seq<char> {
    "\n///\n/// # Safety\n/// \n#[unsafe(no_mangle)]\npub unsafe extern \"C\" fn "@ + send_fn_name(name)
        + "("@ + "client: *mut ClientHandle"@ + send_rust_params(a)
        + ") {\n    let client = unsafe { &mut *client } as &mut ClientHandle;\n    "@
        + send_unpack(a)
        + "\n    let Err(err) = client\n        .send\n        .send_blocking(ClientRequest::"@ + name
        + request_args(a)
        + ")\n        else { return; };\n    unsafe {\n        let str = CString::new(format!(\"{err}\")).unwrap().into_raw();\n        (client.on_fail)(str);\n        _ = CString::from_raw(str)\n    };\n}\n\n"@
}

/// Stepping a fold over a prefix of `a` by one element.
pub proof fn lemma_take_step<A>(a: Seq<A>, j: int)
    requires
        0 <= j < a.len(),
    ensures
        a.take(j + 1).drop_last() == a.take(j),
        a.take(j + 1).last() == a[j],
        a.take(j + 1).len() == j + 1,
{
    assert(a.take(j + 1).drop_last() =~= a.take(j));
}

/// The C# method and the native Rust function that send one variant, or
/// `None` where an argument type has no C# name.
pub fn send_texts(name: &str, args: &Vec<(String, String)>) -> (r: Option<(String, String)>)
    requires
        args@.len() <= usize::MAX / 2,
    ensures
        match r {
            Some((c, x)) => args_typed(pairs_view(args@)) && c@ == send_cs_text(
                name@,
                pairs_view(args@),
            ) && x@ == send_rust_text(name@, pairs_view(args@)),
            None => !args_typed(pairs_view(args@)),
        },
{
    let ghost a = pairs_view(args@);
    let n = args.len();
    let mut params = String::new();
    let mut ffi = String::new();
    let mut call = String::new();
    let mut convs = String::new();
    let mut rparams = String::new();
    let mut unpack = String::new();
    let mut names = String::new();
    let mut extra: usize = 0;
    proof {
        assert(a.take(0) =~= Seq::<(Seq<char>, Seq<char>)>::empty());
    }
    for j in 0..n
        invariant
            n == args@.len(),
            n <= usize::MAX / 2,
            a == pairs_view(args@),
            a.len() == n,
            extra <= j,
            extra == nonprim_count(a.take(j as int)),
            args_typed(a.take(j as int)),
            params@ == send_params(a.take(j as int)),
            ffi@ == send_ffi(a.take(j as int)),
            call@ == send_call(a.take(j as int)),
            convs@ == send_convs(a.take(j as int)),
            rparams@ == send_rust_params(a.take(j as int)),
            unpack@ == send_unpack(a.take(j as int)),
            names@ == arg_names(a.take(j as int)),
    {
        proof {
            lemma_take_step(a, j as int);
        }
        let an = args[j].0.as_str();
        let at = args[j].1.as_str();
        assert(an@ == a[j as int].0 && at@ == a[j as int].1);
        let cs = match csharp_type_of(at) {
            Some(x) => x,
            None => {
                assert(!args_typed(a));
                return None;
            },
        };
        if j > 0 {
            params.append(", ");
        }
        params.append(cs.as_str());
        params.append(" ");
        params.append(an);
        let (m, f) = ffi_type(j + extra, an, at);
        extra = extra + m;
        ffi.append(", ");
        ffi.append(f.as_str());
        if is_rust_prim(at) {
            call.append(", ");
            call.append(an);
        } else {
            call.append(", ");
            call.append(an);
            call.append("_conv, ");
            call.append(an);
            call.append("_len");
        }
        let cv = csharp_gen_conv(an, at);
        convs.append(cv.as_str());
        rparams.append(", ");
        rparams.append(an);
        rparams.append(": ");
        let gt = rust_gen_type(an, at);
        rparams.append(gt.as_str());
        let ua = rust_convert_arg(an, at);
        unpack.append(ua.as_str());
        if !names.as_str().is_empty() {
            names.append(", ");
        }
        names.append(an);
        proof {
            let b = a.take(j + 1);
            assert forall|k: int| 0 <= k < b.len() implies (#[trigger] cs_type(b[k].1)) is Some by {
                if k < j {
                    assert(b[k] == a.take(j as int)[k]);
                }
            }
        }
    }
    proof {
        assert(a.take(n as int) =~= a);
    }
    let mut rn = String::from_str("client_send_");
    let sn = snake_case(name);
    rn.append(sn.as_str());
    let mut c = String::new();
    c.append("\npublic void Send");
    c.append(name);
    c.append("(");
    c.append(params.as_str());
    c.append(
        ") {\n    unsafe {\n        [DllImport(\"blastcap\", SetLastError = true)]\n        static extern void ",
    );
    c.append(rn.as_str());
    c.append("(");
    c.append("void* ptr");
    c.append(ffi.as_str());
    c.append(");\n        ");
    c.append(convs.as_str());
    c.append("\n        ");
    c.append(rn.as_str());
    c.append("(");
    c.append("this._inner");
    c.append(call.as_str());
    c.append(");\n    }\n}\n");
    let mut rargs = String::new();
    if !names.as_str().is_empty() {
        rargs.append("(");
        rargs.append(names.as_str());
        rargs.append(")");
    }
    let mut x = String::new();
    x.append("\n///\n/// # Safety\n/// \n#[unsafe(no_mangle)]\npub unsafe extern \"C\" fn ");
    x.append(rn.as_str());
    x.append("(");
    x.append("client: *mut ClientHandle");
    x.append(rparams.as_str());
    x.append(") {\n    let client = unsafe { &mut *client } as &mut ClientHandle;\n    ");
    x.append(unpack.as_str());
    x.append("\n    let Err(err) = client\n        .send\n        .send_blocking(ClientRequest::");
    x.append(name);
    x.append(rargs.as_str());
    x.append(
        ")\n        else { return; };\n    unsafe {\n        let str = CString::new(format!(\"{err}\")).unwrap().into_raw();\n        (client.on_fail)(str);\n        _ = CString::from_raw(str)\n    };\n}\n\n",
    );
    proof {
        if names@.len() == 0 {
            assert(rargs@ =~= request_args(a));
        }
    }
    Some((c, x))
}

/// Every argument of every variant in `vs` has a C# type.
pub open spec fn variants_typed(vs: Seq<Variant>) -> bool {
    forall|i: int| 0 <= i < vs.len() ==> args_typed(#[trigger] variant_args(vs[i]))
}

/// No variant in `vs` has more arguments than the native parameter
/// positions of its functions can count.
pub open spec fn variants_fit(vs: Seq<Variant>) -> bool {
    forall|i: int| 0 <= i < vs.len() ==> (#[trigger] variant_args(vs[i])).len() <= usize::MAX / 2
}

/// The C# send methods of all variants in `vs`.
pub open spec fn send_cs_all(vs: Seq<Variant>) -> Seq<char>
    decreases vs.len(),
{
    if vs.len() == 0 {
        Seq::empty()
    } else {
        send_cs_all(vs.drop_last()) + send_cs_text(vs.last().name@, variant_args(vs.last()))
    }
}

/// The native send functions of all variants in `vs`.
pub open spec fn send_rust_all(vs: Seq<Variant>) -> Seq<char>
    decreases vs.len(),
{
    if vs.len() == 0 {
        Seq::empty()
    } else {
        send_rust_all(vs.drop_last()) + send_rust_text(vs.last().name@, variant_args(vs.last()))
    }
}

/// The C# file of send methods for the requests `vs`.
pub open spec fn client_calls_cs(vs: Seq<Variant>) -> Seq<char> {
    "using System;\nusing MessagePack;\nusing System.Runtime.InteropServices;\n\npublic partial class NetworkClient {"@
        + send_cs_all(vs) + "}"@
}

/// For the requests that the client sends, the C# file of send methods and
/// the Rust file of the native functions they call; `None` where a field type
/// has no C# name.
pub fn client_interface_checked(variants: &Vec<Variant>) -> (r: Option<(String, String)>)
    requires
        variants_fit(variants@),
    ensures
        match r {
            Some((c, x)) => variants_typed(variants@) && c@ == client_calls_cs(variants@) && x@
                == send_rust_all(variants@),
            None => !variants_typed(variants@),
        },
{
    let ghost vs = variants@;
    let n = variants.len();
    let mut cs = String::new();
    let mut rs = String::new();
    for i in 0..n
        invariant
            n == vs.len(),
            vs == variants@,
            variants_fit(vs),
            forall|k: int| 0 <= k < i ==> args_typed(#[trigger] variant_args(vs[k])),
            cs@ == send_cs_all(vs.take(i as int)),
            rs@ == send_rust_all(vs.take(i as int)),
    {
        proof {
            lemma_take_step(vs, i as int);
        }
        let v = &variants[i];
        let args = args_of(&v.fields);
        assert(variant_args(vs[i as int]).len() <= usize::MAX / 2);
        match send_texts(v.name.as_str(), &args) {
            Some((c, x)) => {
                cs.append(c.as_str());
                rs.append(x.as_str());
            },
            None => {
                return None;
            },
        }
    }
    proof {
        assert(vs.take(n as int) =~= vs);
    }
    let mut c = String::from_str(
        "using System;\nusing MessagePack;\nusing System.Runtime.InteropServices;\n\npublic partial class NetworkClient {",
    );
    c.append(cs.as_str());
    c.append("}");
    Some((c, rs))
}

/// `p`, followed by a comma unless it holds the first of the joined items
/// (`k` counts the items so far, the new one included).
pub open spec fn then_comma(p: Seq<char>, k: nat) -> Seq<char> {
    if k == 1 {
        p
    } else {
        p + ", "@
    }
}

/// The C# name of callback argument `n` of variant `name`.
pub open spec fn poll_cn(name: Seq<char>, n: Seq<char>) -> Seq<char> {
    name + "_"@ + n
}

/// The argument names, joined by commas.
pub open spec fn poll_names(a: Seq<(Seq<char>, Seq<char>)>) -> Seq<char>
    decreases a.len(),
{
    if a.len() == 0 {
        Seq::empty()
    } else {
        then_comma(poll_names(a.drop_last()), a.len()) + a.last().0
    }
}

/// The arguments handed to a callback: a value as it is, a packed argument
/// with its length.
pub open spec fn poll_passed(a: Seq<(Seq<char>, Seq<char>)>) -> Seq<char>
    decreases a.len(),
{
    if a.len() == 0 {
        Seq::empty()
    } else {
        let n = a.last().0;
        then_comma(poll_passed(a.drop_last()), a.len()) + (if rust_prim(a.last().1) {
            n
        } else {
            n + ", "@ + n + "_len"@
        })
    }
}

/// The Rust parameter types of a callback.
pub open spec fn poll_rust_types(a: Seq<(Seq<char>, Seq<char>)>) -> Seq<char>
    decreases a.len(),
{
    if a.len() == 0 {
        Seq::empty()
    } else {
        then_comma(poll_rust_types(a.drop_last()), a.len()) + rust_type_text(a.last().1)
    }
}

/// The native parameters of the raw C# callback of variant `name`.
pub open spec fn poll_ffi(name: Seq<char>, a: Seq<(Seq<char>, Seq<char>)>) -> Seq<char>
    decreases a.len(),
{
    if a.len() == 0 {
        Seq::empty()
    } else {
        then_comma(poll_ffi(name, a.drop_last()), a.len()) + ffi_text(
            ((a.len() - 1) + nonprim_count(a.drop_last())) as nat,
            poll_cn(name, a.last().0),
            a.last().1,
        )
    }
}

/// The unpacked arguments handed to the C# event of variant `name`.
pub open spec fn poll_conv_names(name: Seq<char>, a: Seq<(Seq<char>, Seq<char>)>) -> Seq<char>
    decreases a.len(),
{
    if a.len() == 0 {
        Seq::empty()
    } else {
        then_comma(poll_conv_names(name, a.drop_last()), a.len()) + poll_cn(name, a.last().0)
            + "_conv"@
    }
}

/// The C# lines that unpack the arguments of a callback of variant `name`.
pub open spec fn poll_de_convs(name: Seq<char>, a: Seq<(Seq<char>, Seq<char>)>) -> Seq<char>
    decreases a.len(),
{
    if a.len() == 0 {
        Seq::empty()
    } else {
        poll_de_convs(name, a.drop_last()) + cs_de_conv_text(poll_cn(name, a.last().0), a.last().1)->0
            + "\n"@
    }
}

/// The Rust lines that pack the arguments before a callback.
pub open spec fn poll_pre(a: Seq<(Seq<char>, Seq<char>)>) -> Seq<char>
    decreases a.len(),
{
    if a.len() == 0 {
        Seq::empty()
    } else {
        poll_pre(a.drop_last()) + rust_poll_pre_text(a.last().0, a.last().1) + "\n"@
    }
}

/// The Rust lines that free the packed arguments after a callback.
pub open spec fn poll_suf(a: Seq<(Seq<char>, Seq<char>)>) -> Seq<char>
    decreases a.len(),
{
    if a.len() == 0 {
        Seq::empty()
    } else {
        poll_suf(a.drop_last()) + rust_poll_suf_text(a.last().0, a.last().1) + "\n"@
    }
}

/// The C# names of the callback arguments of variant `name`.
pub open spec fn poll_cs_names(name: Seq<char>, a: Seq<(Seq<char>, Seq<char>)>) -> Seq<char>
    decreases a.len(),
{
    if a.len() == 0 {
        Seq::empty()
    } else {
        then_comma(poll_cs_names(name, a.drop_last()), a.len()) + poll_cn(name, a.last().0)
    }
}

/// The C# parameter list of the event of variant `name`.
pub open spec fn poll_cs_params(name: Seq<char>, a: Seq<(Seq<char>, Seq<char>)>) -> Seq<char>
    decreases a.len(),
{
    if a.len() == 0 {
        Seq::empty()
    } else {
        then_comma(poll_cs_params(name, a.drop_last()), a.len()) + cs_type(a.last().1)->0 + " "@
            + poll_cn(name, a.last().0)
    }
}

/// How the fields of a message are bound in a match arm: braces for named
/// fields, brackets for a tuple variant, nothing without fields.
pub open spec fn poll_wrap(named: bool, a: Seq<(Seq<char>, Seq<char>)>) -> Seq<char> {
    if poll_names(a).len() == 0 {
        Seq::empty()
    } else if named {
        "{ "@ + poll_names(a) + " }"@
    } else {
        "("@ + poll_names(a) + ")"@
    }
}

/// The C# events of variant `name`.
pub open spec fn poll_signal_text(name: Seq<char>) -> Seq<char> {
    "    private event "@ + name + "Callback _on"@ + name + ";\n"@ + "    public event "@ + name
        + "Callback On"@ + name + "\n    {\n        add\n        {\n            _on"@ + name
        + " = null;\n            _on"@ + name
        + " += value;\n        }\n        remove\n        {\n            _on"@ + name
        + " -= value;\n        }\n    }\n"@
}

/// The callback parameter of the native poll function for variant `name`.
pub open spec fn poll_fn_arg_text(name: Seq<char>, a: Seq<(Seq<char>, Seq<char>)>) -> Seq<char> {
    snake_name(name) + "_callback: unsafe extern \"C\" fn("@ + poll_rust_types(a) + "), "@
}

/// The match arm of the native poll function for variant `name`.
pub open spec fn poll_match_text(
    name: Seq<char>,
    named: bool,
    a: Seq<(Seq<char>, Seq<char>)>,
) -> Seq<char> {
    "ServerMessage::"@ + name + poll_wrap(named, a) + " => {\n"@ + poll_pre(a) + snake_name(name)
        + "_callback("@ + poll_passed(a) + ");\n"@ + poll_suf(a) + "\n}\n"@
}

/// The C# delegate types of variant `name`.
pub open spec fn poll_callback_type_text(
    name: Seq<char>,
    a: Seq<(Seq<char>, Seq<char>)>,
) -> Seq<char> {
    "public delegate void "@ + name + "Callback("@ + poll_cs_params(name, a)
        + ");\n    private delegate void "@ + name + "CallbackRaw("@ + poll_ffi(name, a)
        + ");\n    "@
}

/// The C# field that holds the callback of variant `name`.
pub open spec fn poll_field_text(name: Seq<char>) -> Seq<char> {
    "    private "@ + name + "Callback "@ + name + "Fn;\n"@
}

/// The raw C# callback of variant `name`, as an argument of the native call.
pub open spec fn poll_callback_text(name: Seq<char>, a: Seq<(Seq<char>, Seq<char>)>) -> Seq<char> {
    ", ("@ + poll_ffi(name, a) + ") => {\n"@ + poll_de_convs(name, a)
        + "\n                this._on"@ + name + "("@ + poll_conv_names(name, a)
        + ");\n            }"@
}

/// The C# lines that install the default handlers of variant `name`.
pub open spec fn poll_set_con_text(name: Seq<char>, a: Seq<(Seq<char>, Seq<char>)>) -> Seq<char> {
    "\n            this."@ + name + "Fn = ("@ + poll_cs_names(name, a) + ") => _on"@ + name + "("@
        + poll_cs_names(name, a) + ");\n            this.On"@ + name + " += ("@ + poll_cs_names(
        name,
        a,
    ) + ") => {GD.PrintErr(\"Using default event handler for On"@ + name
        + ", please set it!\");};"@
}

/// The raw callback parameter of the imported C# poll function.
pub open spec fn poll_raw_callback_text(name: Seq<char>) -> Seq<char> {
    ", "@ + name + "CallbackRaw "@ + name + "Fn"@
}

/// The pieces that one variant adds to the polling files.
pub struct PollPieces {
    pub callback_types: String,
    pub fields: String,
    pub signals: String,
    pub raw_callbacks: String,
    pub callbacks: String,
    pub set_cons: String,
    pub fn_args: String,
    pub matches: String,
}

/// The pieces of `PollPieces` for variant `name` with arguments `a`.
pub open spec fn poll_pieces_match(
    p: PollPieces,
    name: Seq<char>,
    named: bool,
    a: Seq<(Seq<char>, Seq<char>)>,
) -> bool {
    &&& p.callback_types@ == poll_callback_type_text(name, a)
    &&& p.fields@ == poll_field_text(name)
    &&& p.signals@ == poll_signal_text(name)
    &&& p.raw_callbacks@ == poll_raw_callback_text(name)
    &&& p.callbacks@ == poll_callback_text(name, a)
    &&& p.set_cons@ == poll_set_con_text(name, a)
    &&& p.fn_args@ == poll_fn_arg_text(name, a)
    &&& p.matches@ == poll_match_text(name, named, a)
}

/// The polling pieces of variant `name` with arguments `args` (`named` for a
/// variant with named fields), or `None` where an argument type has no C#
/// name.
pub fn poll_texts(name: &str, named: bool, args: &Vec<(String, String)>) -> (r: Option<
    PollPieces,
>)
    requires
        args@.len() <= usize::MAX / 2,
    ensures
        match r {
            Some(p) => args_typed(pairs_view(args@)) && poll_pieces_match(
                p,
                name@,
                named,
                pairs_view(args@),
            ),
            None => !args_typed(pairs_view(args@)),
        },
{
    let ghost a = pairs_view(args@);
    let ghost nm = name@;
    let n = args.len();
    let mut names = String::new();
    let mut passed = String::new();
    let mut rtypes = String::new();
    let mut ffi = String::new();
    let mut conv_names = String::new();
    let mut de_convs = String::new();
    let mut pre = String::new();
    let mut suf = String::new();
    let mut cs_names = String::new();
    let mut cs_params = String::new();
    let mut extra: usize = 0;
    for j in 0..n
        invariant
            n == args@.len(),
            n <= usize::MAX / 2,
            a == pairs_view(args@),
            a.len() == n,
            nm == name@,
            extra <= j,
            extra == nonprim_count(a.take(j as int)),
            args_typed(a.take(j as int)),
            names@ == poll_names(a.take(j as int)),
            passed@ == poll_passed(a.take(j as int)),
            rtypes@ == poll_rust_types(a.take(j as int)),
            ffi@ == poll_ffi(nm, a.take(j as int)),
            conv_names@ == poll_conv_names(nm, a.take(j as int)),
            de_convs@ == poll_de_convs(nm, a.take(j as int)),
            pre@ == poll_pre(a.take(j as int)),
            suf@ == poll_suf(a.take(j as int)),
            cs_names@ == poll_cs_names(nm, a.take(j as int)),
            cs_params@ == poll_cs_params(nm, a.take(j as int)),
    {
        proof {
            lemma_take_step(a, j as int);
        }
        let an = args[j].0.as_str();
        let at = args[j].1.as_str();
        assert(an@ == a[j as int].0 && at@ == a[j as int].1);
        let ct = match csharp_type_of(at) {
            Some(x) => x,
            None => {
                assert(!args_typed(a));
                return None;
            },
        };
        let mut cn = String::from_str(name);
        cn.append("_");
        cn.append(an);
        let prim = is_rust_prim(at);
        if j > 0 {
            names.append(", ");
            passed.append(", ");
            rtypes.append(", ");
            ffi.append(", ");
            conv_names.append(", ");
            cs_names.append(", ");
            cs_params.append(", ");
        }
        names.append(an);
        let mut pass = String::from_str(an);
        if !prim {
            pass.append(", ");
            pass.append(an);
            pass.append("_len");
        }
        passed.append(pass.as_str());
        rtypes.append(rust_type(at));
        let (m, f) = ffi_type(j + extra, cn.as_str(), at);
        extra = extra + m;
        ffi.append(f.as_str());
        conv_names.append(cn.as_str());
        conv_names.append("_conv");
        let dc = match csharp_gen_de_conv(cn.as_str(), at) {
            Some(x) => x,
            None => {
                return None;
            },
        };
        de_convs.append(dc.as_str());
        de_convs.append("\n");
        let pr = rust_poll_pre(an, at);
        pre.append(pr.as_str());
        pre.append("\n");
        let sf = rust_poll_suf(an, at);
        suf.append(sf.as_str());
        suf.append("\n");
        cs_names.append(cn.as_str());
        cs_params.append(ct.as_str());
        cs_params.append(" ");
        cs_params.append(cn.as_str());
        proof {
            let b = a.take(j + 1);
            assert forall|k: int| 0 <= k < b.len() implies (#[trigger] cs_type(b[k].1)) is Some by {
                if k < j {
                    assert(b[k] == a.take(j as int)[k]);
                }
            }
        }
    }
    proof {
        assert(a.take(n as int) =~= a);
    }
    let mut callback_types = String::from_str("public delegate void ");
    callback_types.append(name);
    callback_types.append("Callback(");
    callback_types.append(cs_params.as_str());
    callback_types.append(");\n    private delegate void ");
    callback_types.append(name);
    callback_types.append("CallbackRaw(");
    callback_types.append(ffi.as_str());
    callback_types.append(");\n    ");
    let mut fields = String::from_str("    private ");
    fields.append(name);
    fields.append("Callback ");
    fields.append(name);
    fields.append("Fn;\n");
    let mut signals = String::from_str("    private event ");
    signals.append(name);
    signals.append("Callback _on");
    signals.append(name);
    signals.append(";\n");
    signals.append("    public event ");
    signals.append(name);
    signals.append("Callback On");
    signals.append(name);
    signals.append("\n    {\n        add\n        {\n            _on");
    signals.append(name);
    signals.append(" = null;\n            _on");
    signals.append(name);
    signals.append(" += value;\n        }\n        remove\n        {\n            _on");
    signals.append(name);
    signals.append(" -= value;\n        }\n    }\n");
    let mut raw_callbacks = String::from_str(", ");
    raw_callbacks.append(name);
    raw_callbacks.append("CallbackRaw ");
    raw_callbacks.append(name);
    raw_callbacks.append("Fn");
    let mut callbacks = String::from_str(", (");
    callbacks.append(ffi.as_str());
    callbacks.append(") => {\n");
    callbacks.append(de_convs.as_str());
    callbacks.append("\n                this._on");
    callbacks.append(name);
    callbacks.append("(");
    callbacks.append(conv_names.as_str());
    callbacks.append(");\n            }");
    let mut set_cons = String::from_str("\n            this.");
    set_cons.append(name);
    set_cons.append("Fn = (");
    set_cons.append(cs_names.as_str());
    set_cons.append(") => _on");
    set_cons.append(name);
    set_cons.append("(");
    set_cons.append(cs_names.as_str());
    set_cons.append(");\n            this.On");
    set_cons.append(name);
    set_cons.append(" += (");
    set_cons.append(cs_names.as_str());
    set_cons.append(") => {GD.PrintErr(\"Using default event handler for On");
    set_cons.append(name);
    set_cons.append(", please set it!\");};");
    let sn = snake_case(name);
    let mut fn_args = snake_case(name);
    fn_args.append("_callback: unsafe extern \"C\" fn(");
    fn_args.append(rtypes.as_str());
    fn_args.append("), ");
    let wrap = if names.as_str().is_empty() {
        String::new()
    } else if named {
        wrapped("{ ", names.as_str(), " }")
    } else {
        wrapped("(", names.as_str(), ")")
    };
    let mut matches = String::from_str("ServerMessage::");
    matches.append(name);
    matches.append(wrap.as_str());
    matches.append(" => {\n");
    matches.append(pre.as_str());
    matches.append(sn.as_str());
    matches.append("_callback(");
    matches.append(passed.as_str());
    matches.append(");\n");
    matches.append(suf.as_str());
    matches.append("\n}\n");
    Some(
        PollPieces {
            callback_types,
            fields,
            signals,
            raw_callbacks,
            callbacks,
            set_cons,
            fn_args,
            matches,
        },
    )
}

/// The places of the polling files that every variant adds to.
pub enum PollPart {
    CallbackTypes,
    Fields,
    Signals,
    RawCallbacks,
    Callbacks,
    SetCons,
    FnArgs,
    Matches,
}

/// What variant `v` adds to place `part` of the polling files.
pub open spec fn poll_piece(v: Variant, part: PollPart) -> Seq<char> {
    let name = v.name@;
    let a = variant_args(v);
    match part {
        PollPart::CallbackTypes => poll_callback_type_text(name, a),
        PollPart::Fields => poll_field_text(name),
        PollPart::Signals => poll_signal_text(name),
        PollPart::RawCallbacks => poll_raw_callback_text(name),
        PollPart::Callbacks => poll_callback_text(name, a),
        PollPart::SetCons => poll_set_con_text(name, a),
        PollPart::FnArgs => poll_fn_arg_text(name, a),
        PollPart::Matches => poll_match_text(name, v.fields is Named, a),
    }
}

/// What all variants in `vs` add to place `part`, in their order.
pub open spec fn poll_fold(vs: Seq<Variant>, part: PollPart) -> Seq<char>
    decreases vs.len(),
{
    if vs.len() == 0 {
        Seq::empty()
    } else {
        poll_fold(vs.drop_last(), part) + poll_piece(vs.last(), part)
    }
}

/// Each place of the polling files is the pieces of the variants, one per
/// variant, in their order: in particular the native poll function takes
/// one callback per variant and matches one arm per variant, in order.
pub proof fn lemma_poll_fold_pieces(vs: Seq<Variant>, part: PollPart)
    ensures
        poll_fold(vs, part) == vs.map_values(|v: Variant| poll_piece(v, part)).flatten(),
    decreases vs.len(),
{
    let ps = vs.map_values(|v: Variant| poll_piece(v, part));
    if vs.len() > 0 {
        lemma_poll_fold_pieces(vs.drop_last(), part);
        assert(ps.drop_last() =~= vs.drop_last().map_values(|v: Variant| poll_piece(v, part)));
        ps.drop_last().lemma_flatten_and_flatten_alt_are_equivalent();
        ps.lemma_flatten_and_flatten_alt_are_equivalent();
    } else {
        assert(ps =~= Seq::<Seq<char>>::empty());
    }
}

/// A prefix stays a prefix when more is appended.
proof fn lemma_prefix_extend(a: Seq<char>, s: Seq<char>, t: Seq<char>)
    requires
        a.is_prefix_of(s),
    ensures
        a.is_prefix_of(s + t),
{
    assert((s + t).subrange(0, a.len() as int) =~= s.subrange(0, a.len() as int));
}

/// The native poll function's piece for a variant begins with the
/// variant's callback parameter, and its match arm with the variant's
/// pattern.
pub proof fn lemma_poll_native_pieces(v: Variant)
    ensures
        (snake_name(v.name@) + "_callback: unsafe extern \"C\" fn("@).is_prefix_of(poll_piece(v, PollPart::FnArgs)),
        ("ServerMessage::"@ + v.name@).is_prefix_of(poll_piece(v, PollPart::Matches)),
{
    let n = v.name@;
    let args = variant_args(v);
    let a = snake_name(n) + "_callback: unsafe extern \"C\" fn("@;
    assert(a.is_prefix_of(a)) by {
        assert(a.subrange(0, a.len() as int) =~= a);
    }
    lemma_prefix_extend(a, a, poll_rust_types(args));
    lemma_prefix_extend(a, a + poll_rust_types(args), "), "@);
    let b = "ServerMessage::"@ + n;
    assert(b.is_prefix_of(b)) by {
        assert(b.subrange(0, b.len() as int) =~= b);
    }
    let s1 = b + poll_wrap(v.fields is Named, args);
    lemma_prefix_extend(b, b, poll_wrap(v.fields is Named, args));
    let s2 = s1 + " => {\n"@;
    lemma_prefix_extend(b, s1, " => {\n"@);
    let s3 = s2 + poll_pre(args);
    lemma_prefix_extend(b, s2, poll_pre(args));
    let s4 = s3 + snake_name(n);
    lemma_prefix_extend(b, s3, snake_name(n));
    let s5 = s4 + "_callback("@;
    lemma_prefix_extend(b, s4, "_callback("@);
    let s6 = s5 + poll_passed(args);
    lemma_prefix_extend(b, s5, poll_passed(args));
    let s7 = s6 + ");\n"@;
    lemma_prefix_extend(b, s6, ");\n"@);
    let s8 = s7 + poll_suf(args);
    lemma_prefix_extend(b, s7, poll_suf(args));
    lemma_prefix_extend(b, s8, "\n}\n"@);
}

/// The C# polling file for the messages `vs`.
pub open spec fn poll_cs_file(vs: Seq<Variant>) -> Seq<char> {
    "using System.Runtime.InteropServices;\nusing System;\nusing Godot;\nusing MessagePack;\nusing System.Collections.Generic;\n\npublic partial class NetworkClient {\n    "@
        + poll_fold(vs, PollPart::CallbackTypes) + "\n"@ + poll_fold(vs, PollPart::Fields) + "\n"@
        + poll_fold(vs, PollPart::Signals)
        + "\n    public void Poll()\n    {\n        unsafe\n        {\n            [DllImport(\"blastcap\", SetLastError = true)]\n            static extern void client_poll(void* ptr"@
        + poll_fold(vs, PollPart::RawCallbacks) + ");\n            client_poll(this._inner"@
        + poll_fold(vs, PollPart::Callbacks)
        + ");\n        }\n    }\n    public void Connect([MarshalAs(UnmanagedType.LPUTF8Str)] string addr)\n    {\n        [DllImport(\"blastcap\", SetLastError = true)]\n        static extern unsafe void start_client_loop(void* inner, [MarshalAs(UnmanagedType.LPUTF8Str)] string addr);\n        unsafe\n        {\n            start_client_loop(_inner, addr);\n            "@
        + poll_fold(vs, PollPart::SetCons) + "\n        }\n    }\n}"@
}

/// The Rust file with the native polling function for the messages `vs`.
pub open spec fn poll_rust_file(vs: Seq<Variant>) -> Seq<char> {
    "\n///\n/// # Safety\n///\n#[unsafe(no_mangle)]\npub unsafe extern \"C\" fn client_poll(\n    client: *mut ClientHandle,\n    "@
        + poll_fold(vs, PollPart::FnArgs)
        + "\n) {\n    let client = unsafe { &mut *client } as &mut ClientHandle;\n    // if let Ok(msg) = client.recv.try_recv() {\n    while let Ok(msg) = client.recv.try_recv() {\n        unsafe {\n            match msg {\n    "@
        + poll_fold(vs, PollPart::Matches) + "\n            }\n        }\n    };\n}\n"@
}

/// For the messages that the server sends, the C# polling file and the Rust
/// file with the native function that hands each message to its callback;
/// `None` where a field type has no C# name.
pub fn client_poll_checked(variants: &Vec<Variant>) -> (r: Option<(String, String)>)
    requires
        variants_fit(variants@),
    ensures
        match r {
            Some((c, x)) => variants_typed(variants@) && c@ == poll_cs_file(variants@) && x@
                == poll_rust_file(variants@),
            None => !variants_typed(variants@),
        },
{
    let ghost vs = variants@;
    let n = variants.len();
    let mut callback_types = String::new();
    let mut fields = String::new();
    let mut signals = String::new();
    let mut raw_callbacks = String::new();
    let mut callbacks = String::new();
    let mut set_cons = String::new();
    let mut fn_args = String::new();
    let mut matches = String::new();
    for i in 0..n
        invariant
            n == vs.len(),
            vs == variants@,
            variants_fit(vs),
            forall|k: int| 0 <= k < i ==> args_typed(#[trigger] variant_args(vs[k])),
            callback_types@ == poll_fold(vs.take(i as int), PollPart::CallbackTypes),
            fields@ == poll_fold(vs.take(i as int), PollPart::Fields),
            signals@ == poll_fold(vs.take(i as int), PollPart::Signals),
            raw_callbacks@ == poll_fold(vs.take(i as int), PollPart::RawCallbacks),
            callbacks@ == poll_fold(vs.take(i as int), PollPart::Callbacks),
            set_cons@ == poll_fold(vs.take(i as int), PollPart::SetCons),
            fn_args@ == poll_fold(vs.take(i as int), PollPart::FnArgs),
            matches@ == poll_fold(vs.take(i as int), PollPart::Matches),
    {
        proof {
            lemma_take_step(vs, i as int);
        }
        let v = &variants[i];
        let args = args_of(&v.fields);
        assert(variant_args(vs[i as int]).len() <= usize::MAX / 2);
        let named = match &v.fields {
            Fields::Named(_) => true,
            _ => false,
        };
        match poll_texts(v.name.as_str(), named, &args) {
            Some(p) => {
                callback_types.append(p.callback_types.as_str());
                fields.append(p.fields.as_str());
                signals.append(p.signals.as_str());
                raw_callbacks.append(p.raw_callbacks.as_str());
                callbacks.append(p.callbacks.as_str());
                set_cons.append(p.set_cons.as_str());
                fn_args.append(p.fn_args.as_str());
                matches.append(p.matches.as_str());
            },
            None => {
                return None;
            },
        }
    }
    proof {
        assert(vs.take(n as int) =~= vs);
    }
    let mut c = String::from_str(
        "using System.Runtime.InteropServices;\nusing System;\nusing Godot;\nusing MessagePack;\nusing System.Collections.Generic;\n\npublic partial class NetworkClient {\n    ",
    );
    c.append(callback_types.as_str());
    c.append("\n");
    c.append(fields.as_str());
    c.append("\n");
    c.append(signals.as_str());
    c.append(
        "\n    public void Poll()\n    {\n        unsafe\n        {\n            [DllImport(\"blastcap\", SetLastError = true)]\n            static extern void client_poll(void* ptr",
    );
    c.append(raw_callbacks.as_str());
    c.append(");\n            client_poll(this._inner");
    c.append(callbacks.as_str());
    c.append(
        ");\n        }\n    }\n    public void Connect([MarshalAs(UnmanagedType.LPUTF8Str)] string addr)\n    {\n        [DllImport(\"blastcap\", SetLastError = true)]\n        static extern unsafe void start_client_loop(void* inner, [MarshalAs(UnmanagedType.LPUTF8Str)] string addr);\n        unsafe\n        {\n            start_client_loop(_inner, addr);\n            ",
    );
    c.append(set_cons.as_str());
    c.append("\n        }\n    }\n}");
    let mut x = String::from_str(
        "\n///\n/// # Safety\n///\n#[unsafe(no_mangle)]\npub unsafe extern \"C\" fn client_poll(\n    client: *mut ClientHandle,\n    ",
    );
    x.append(fn_args.as_str());
    x.append(
        "\n) {\n    let client = unsafe { &mut *client } as &mut ClientHandle;\n    // if let Ok(msg) = client.recv.try_recv() {\n    while let Ok(msg) = client.recv.try_recv() {\n        unsafe {\n            match msg {\n    ",
    );
    x.append(matches.as_str());
    x.append("\n            }\n        }\n    };\n}\n");
    Some((c, x))
}

/// One shared constant: its Rust type text, its name and its value text.
pub open spec fn constant_line(ty: Seq<char>, name: Seq<char>, value: Seq<char>) -> Seq<char> {
    "    public const "@ + cs_type(ty)->0 + " "@ + name + " = "@ + value + ";\n"@
}

/// The C# declarations of the constants `cs` (type, name, value).
pub open spec fn constant_lines(cs: Seq<(String, String, String)>) -> Seq<char>
    decreases cs.len(),
{
    if cs.len() == 0 {
        Seq::empty()
    } else {
        constant_lines(cs.drop_last()) + constant_line(
            cs.last().0@,
            cs.last().1@,
            cs.last().2@,
        )
    }
}

/// Every constant in `cs` has a type with a C# name.
pub open spec fn constants_typed(cs: Seq<(String, String, String)>) -> bool {
    forall|k: int| 0 <= k < cs.len() ==> (#[trigger] cs_type(cs[k].0@)) is Some
}

/// The C# class of the shared constants `cs`, each given by its type text,
/// its name and its value text; `None` where a type has no C# name.
pub fn constants_checked(cs: &Vec<(String, String, String)>) -> (r: Option<String>)
    ensures
        match r {
            Some(t) => constants_typed(cs@) && t@ == "using System;\nstatic class Constants {\n"@
                + constant_lines(cs@) + "}"@,
            None => !constants_typed(cs@),
        },
{
    let n = cs.len();
    let mut code = String::new();
    for i in 0..n
        invariant
            n == cs@.len(),
            forall|k: int| 0 <= k < i ==> (#[trigger] cs_type(cs@[k].0@)) is Some,
            code@ == constant_lines(cs@.take(i as int)),
    {
        proof {
            lemma_take_step(cs@, i as int);
        }
        let ty = match csharp_type_of(cs[i].0.as_str()) {
            Some(t) => t,
            None => {
                return None;
            },
        };
        code.append("    public const ");
        code.append(ty.as_str());
        code.append(" ");
        code.append(cs[i].1.as_str());
        code.append(" = ");
        code.append(cs[i].2.as_str());
        code.append(";\n");
    }
    proof {
        assert(cs@.take(n as int) =~= cs@);
    }
    let mut t = String::from_str("using System;\nstatic class Constants {\n");
    t.append(code.as_str());
    t.append("}");
    Some(t)
}

/// The C# name of the Rust type `ty`, which must have one (see `cs_type`).
pub fn csharp_type(ty: &str) -> (r: String)
    requires
        cs_type(ty@) is Some,
    ensures
        cs_type(ty@) == Some(r@),
{
    match csharp_type_of(ty) {
        Some(s) => s,
        None => String::new(),
    }
}

/// For the requests that the client sends, whose field types all have C#
/// names, the C# file of send methods and the Rust file of the native
/// functions they call.
pub fn client_interface(variants: &Vec<Variant>) -> (r: (String, String))
    requires
        variants_fit(variants@),
        variants_typed(variants@),
    ensures
        r.0@ == client_calls_cs(variants@),
        r.1@ == send_rust_all(variants@),
{
    match client_interface_checked(variants) {
        Some(g) => g,
        None => (String::new(), String::new()),
    }
}

/// For the messages that the server sends, whose field types all have C#
/// names, the C# polling file and the Rust file with the native function
/// that hands each message to its callback.
pub fn client_poll(variants: &Vec<Variant>) -> (r: (String, String))
    requires
        variants_fit(variants@),
        variants_typed(variants@),
    ensures
        r.0@ == poll_cs_file(variants@),
        r.1@ == poll_rust_file(variants@),
{
    match client_poll_checked(variants) {
        Some(g) => g,
        None => (String::new(), String::new()),
    }
}

/// The C# class of the shared constants `cs`, whose types all have C#
/// names, each given by its type text, its name and its value text.
pub fn constants(cs: &Vec<(String, String, String)>) -> (r: String)
    requires
        constants_typed(cs@),
    ensures
        r@ == "using System;\nstatic class Constants {\n"@ + constant_lines(cs@) + "}"@,
{
    match constants_checked(cs) {
        Some(t) => t,
        None => String::new(),
    }
}

/// A field of a parsed enum variant: its name, if it has one, and the text
/// of its type.
pub open spec fn raw_field_name(f: (Option<Seq<char>>, Seq<char>)) -> Seq<char> {
    match f.0 {
        Some(n) => n,
        None => Seq::empty(),
    }
}

/// What parsing Rust source `src` gives: `None` if it is not a Rust file;
/// else, for each of its items in order, `None` unless the item is an
/// enum, and for an enum its name and, for each variant, the variant's
/// name, its kind (0 with named fields, 1 with unnamed ones, 2 with none)
/// and each field's name and type text.
pub uninterp spec fn source_items(src: Seq<char>) -> Option<Seq<Option<(Seq<char>, Seq<(Seq<char>, u8, Seq<(Option<Seq<char>>, Seq<char>)>)>)>>>;

/// `syn::parse_file` on `src`, with each item taken apart as
/// `source_items` says: an enum's variants by name, kind (one arm for each
/// kind of `syn::Fields`) and fields (name and the token text of the type,
/// as `quote::ToTokens` prints it); any other item as `None`. The result
/// is named `source_items`: it depends on the text alone.
#[verifier::external_body]
fn parse_source_items(src: &str) -> (r: Option<Vec<Option<(String, Vec<(String, u8, Vec<(Option<String>, String)>)>)>>>)
    ensures
        r.deep_view() == source_items(src@),
{
    let file = syn::parse_file(src).ok()?;
    Some(file.items.iter().map(|it| match it {
        syn::Item::Enum(e) => Some((e.ident.to_string(), e.variants.iter().map(|v| (
            v.ident.to_string(),
            match &v.fields { syn::Fields::Named(_) => 0u8, syn::Fields::Unnamed(_) => 1u8, syn::Fields::Unit => 2u8 },
            v.fields.iter().map(|f| (f.ident.as_ref().map(|i| i.to_string()), f.ty.to_token_stream().to_string())).collect(),
        )).collect())),
        _ => None,
    }).collect())
}

/// `v` is the variant parsed as `raw`: same name; named fields for kind 0,
/// unnamed ones for kind 1, none otherwise.
pub open spec fn variant_from(raw: (Seq<char>, u8, Seq<(Option<Seq<char>>, Seq<char>)>), v: Variant) -> bool {
    &&& v.name@ == raw.0
    &&& match v.fields {
        Fields::Named(f) => raw.1 == 0 && f@.len() == raw.2.len() && forall|i: int|
            0 <= i < f@.len() ==> (#[trigger] f@[i]).0@ == raw_field_name(raw.2[i]) && f@[i].1@ == raw.2[i].1,
        Fields::Unnamed(t) => raw.1 == 1 && t@.len() == raw.2.len() && forall|i: int|
            0 <= i < t@.len() ==> (#[trigger] t@[i])@ == raw.2[i].1,
        Fields::Unit => raw.1 != 0 && raw.1 != 1,
    }
}

/// `vs` are the variants parsed as `raws`, one for one.
pub open spec fn variants_from(raws: Seq<(Seq<char>, u8, Seq<(Option<Seq<char>>, Seq<char>)>)>, vs: Seq<Variant>) -> bool {
    vs.len() == raws.len() && forall|i: int| 0 <= i < vs.len() ==> variant_from(raws[i], #[trigger] vs[i])
}

/// The variants of the last enum named `name` among `items`.
pub open spec fn last_enum(items: Seq<Option<(Seq<char>, Seq<(Seq<char>, u8, Seq<(Option<Seq<char>>, Seq<char>)>)>)>>, name: Seq<char>) -> Option<Seq<(Seq<char>, u8, Seq<(Option<Seq<char>>, Seq<char>)>)>>
    decreases items.len(),
{
    if items.len() == 0 {
        None
    } else {
        match items.last() {
            Some((n, vs)) => if n == name {
                Some(vs)
            } else {
                last_enum(items.drop_last(), name)
            },
            None => last_enum(items.drop_last(), name),
        }
    }
}

/// The generated pair `part` for the enum parsed as `raws` (`None` when
/// there is no such enum): the C# and Rust texts of the polling side when
/// `poll`, of the calling side otherwise, present exactly when every field
/// type has a C# name.
pub open spec fn generated_for(raws: Option<Seq<(Seq<char>, u8, Seq<(Option<Seq<char>>, Seq<char>)>)>>, part: Option<Option<(String, String)>>, poll: bool) -> bool {
    match raws {
        None => part is None,
        Some(rs) => exists|vs: Seq<Variant>| #[trigger] variants_from(rs, vs) && (part matches Some(g) && (g is Some <==> variants_fit(vs) && variants_typed(vs)))
            && (part matches Some(Some((c, x))) ==> if poll {
                c@ == poll_cs_file(vs) && x@ == poll_rust_file(vs)
            } else {
                c@ == client_calls_cs(vs) && x@ == send_rust_all(vs)
            }),
    }
}

/// The variant parsed as `raw`.
fn variant_of(raw: &(String, u8, Vec<(Option<String>, String)>)) -> (v: Variant)
    ensures
        variant_from(raw.deep_view(), v),
{
    let n = raw.2.len();
    if raw.1 == 0 {
        let mut f: Vec<(String, String)> = Vec::new();
        for i in 0..n
            invariant
                n == raw.2@.len(),
                f@.len() == i,
                forall|k: int| 0 <= k < i ==> (#[trigger] f@[k]).0@ == raw_field_name(raw.deep_view().2[k]) && f@[k].1@ == raw.deep_view().2[k].1,
        {
            let name = match &raw.2[i].0 {
                Some(s) => s.clone(),
                None => String::new(),
            };
            f.push((name, raw.2[i].1.clone()));
        }
        Variant { name: raw.0.clone(), fields: Fields::Named(f) }
    } else if raw.1 == 1 {
        let mut t: Vec<String> = Vec::new();
        for i in 0..n
            invariant
                n == raw.2@.len(),
                t@.len() == i,
                forall|k: int| 0 <= k < i ==> (#[trigger] t@[k])@ == raw.deep_view().2[k].1,
        {
            t.push(raw.2[i].1.clone());
        }
        Variant { name: raw.0.clone(), fields: Fields::Unnamed(t) }
    } else {
        Variant { name: raw.0.clone(), fields: Fields::Unit }
    }
}

/// Whether no variant of `vs` has more arguments than `variants_fit` allows.
fn variants_fit_check(vs: &Vec<Variant>) -> (b: bool)
    ensures
        b == variants_fit(vs@),
{
    let n = vs.len();
    for i in 0..n
        invariant
            n == vs@.len(),
            forall|k: int| 0 <= k < i ==> (#[trigger] variant_args(vs@[k])).len() <= usize::MAX / 2,
    {
        let args = args_of(&vs[i].fields);
        proof {
            assert(pairs_view(args@).len() == args@.len());
            assert(variant_args(vs@[i as int]) == pairs_view(args@));
        }
        if args.len() > usize::MAX / 2 {
            return false;
        }
    }
    true
}

/// The variants of the last enum named `name` among `items`, converted.
fn find_enum(items: &Vec<Option<(String, Vec<(String, u8, Vec<(Option<String>, String)>)>)>>, name: &str) -> (r: Option<Vec<Variant>>)
    ensures
        match last_enum(items.deep_view(), name@) {
            None => r is None,
            Some(rs) => r matches Some(vs) && variants_from(rs, vs@),
        },
{
    let n = items.len();
    let mut found: Option<usize> = None;
    for i in 0..n
        invariant
            n == items@.len(),
            match found {
                None => last_enum(items.deep_view().subrange(0, i as int), name@) is None,
                Some(k) => k < i && items@[k as int] is Some && last_enum(items.deep_view().subrange(0, i as int), name@)
                    == Some(items.deep_view()[k as int]->Some_0.1),
            },
    {
        proof {
            assert(items.deep_view().subrange(0, i as int + 1).drop_last() =~= items.deep_view().subrange(0, i as int));
            assert(items.deep_view().subrange(0, i as int + 1).last() == items.deep_view()[i as int]);
        }
        match &items[i] {
            Some((en, _)) => {
                if crate::text::str_eq(en.as_str(), name) {
                    found = Some(i);
                }
            },
            None => {},
        }
    }
    proof {
        assert(items.deep_view().subrange(0, n as int) =~= items.deep_view());
    }
    match found {
        None => None,
        Some(k) => {
            match &items[k] {
                Some((_, raws)) => {
                    let m = raws.len();
                    let mut vs: Vec<Variant> = Vec::new();
                    for j in 0..m
                        invariant
                            m == raws@.len(),
                            vs@.len() == j,
                            forall|q: int| 0 <= q < j ==> variant_from(raws.deep_view()[q], #[trigger] vs@[q]),
                    {
                        vs.push(variant_of(&raws[j]));
                    }
                    Some(vs)
                },
                None => None,
            }
        },
    }
}

/// The bindings generated from the source `messages_src` of the messages
/// module: `None` if it does not parse; else the C# and Rust polling
/// texts for its `ServerMessage` enum and the C# and Rust calling texts
/// for its `ClientRequest` enum, each `None` when the enum is missing and
/// `Some(None)` when it has a field type without a C# name.
pub fn bindings(messages_src: &str) -> (r: Option<(Option<Option<(String, String)>>, Option<Option<(String, String)>>)>)
    ensures
        match source_items(messages_src@) {
            None => r is None,
            Some(items) => r matches Some((p, c)) && generated_for(last_enum(items, "ServerMessage"@), p, true)
                && generated_for(last_enum(items, "ClientRequest"@), c, false),
        },
{
    let items = match parse_source_items(messages_src) {
        Some(items) => items,
        None => {
            return None;
        },
    };
    let poll = match find_enum(&items, "ServerMessage") {
        None => None,
        Some(vs) => {
            let ok = variants_fit_check(&vs);
            if ok {
                let g = client_poll_checked(&vs);
                proof {
                    assert(variants_from(last_enum(items.deep_view(), "ServerMessage"@)->Some_0, vs@));
                }
                Some(g)
            } else {
                proof {
                    assert(variants_from(last_enum(items.deep_view(), "ServerMessage"@)->Some_0, vs@));
                }
                Some(None)
            }
        },
    };
    let calls = match find_enum(&items, "ClientRequest") {
        None => None,
        Some(vs) => {
            let ok = variants_fit_check(&vs);
            if ok {
                let g = client_interface_checked(&vs);
                proof {
                    assert(variants_from(last_enum(items.deep_view(), "ClientRequest"@)->Some_0, vs@));
                }
                Some(g)
            } else {
                proof {
                    assert(variants_from(last_enum(items.deep_view(), "ClientRequest"@)->Some_0, vs@));
                }
                Some(None)
            }
        },
    };
    Some((poll, calls))
}

/// What parsing the library root `src` gives: `None` if it is not a Rust
/// file; else, for each of its items in order, `None` unless the item is a
/// macro call, and for a macro call the last segment of the macro's path
/// (if any) and what parsing its tokens as a module gives: `None` if they
/// are not one, `Some(None)` for a module without a body, else for each
/// item of the body `None` unless it is a constant, and for a constant the
/// source text of its type, its name and the source text of its value
/// (each text `None` where the source has none).
pub uninterp spec fn root_constants(src: Seq<char>) -> Option<Seq<Option<(Option<Seq<char>>, Option<Option<Seq<Option<(Option<Seq<char>>, Seq<char>, Option<Seq<char>>)>>>>)>>>;

/// `syn::parse_file` on `src`, each item taken apart as `root_constants`
/// says: a macro call's tokens parsed with `syn::parse2::<syn::ItemMod>`,
/// a constant's type and value read back with `Span::source_text` (span
/// locations on). The result is named `root_constants`: it depends on the
/// text alone.
#[verifier::external_body]
fn parse_root_constants(src: &str) -> (r: Option<Vec<Option<(Option<String>, Option<Option<Vec<Option<(Option<String>, String, Option<String>)>>>>)>>>)
    ensures
        r.deep_view() == root_constants(src@),
{
    let file = syn::parse_file(src).ok()?;
    Some(file.items.iter().map(|it| match it {
        syn::Item::Macro(m) => Some((m.mac.path.segments.last().map(|s| s.ident.to_string()),
            syn::parse2::<syn::ItemMod>(m.mac.tokens.clone()).ok().map(|md| md.content.map(|(_, items)| items.iter().map(|i| match i {
                syn::Item::Const(c) => Some((c.ty.span().source_text(), c.ident.to_string(), c.expr.span().source_text())),
                _ => None,
            }).collect())))),
        _ => None,
    }).collect())
}

/// The parsed modules of the `constants` macro calls among `items`, in order.
pub open spec fn constants_macros(items: Seq<Option<(Option<Seq<char>>, Option<Option<Seq<Option<(Option<Seq<char>>, Seq<char>, Option<Seq<char>>)>>>>)>>) -> Seq<Option<Option<Seq<Option<(Option<Seq<char>>, Seq<char>, Option<Seq<char>>)>>>>>
    decreases items.len(),
{
    if items.len() == 0 {
        Seq::empty()
    } else {
        let rest = constants_macros(items.drop_last());
        match items.last() {
            Some((Some(n), md)) => if n == "constants"@ {
                rest.push(md)
            } else {
                rest
            },
            _ => rest,
        }
    }
}

/// The constants `cs` are the parsed `entries`, one for one.
pub open spec fn entries_match(entries: Seq<Option<(Option<Seq<char>>, Seq<char>, Option<Seq<char>>)>>, cs: Seq<(String, String, String)>) -> bool {
    cs.len() == entries.len() && forall|k: int|
        0 <= k < cs.len() ==> entries[k] == Some((Some((#[trigger] cs[k]).0@), cs[k].1@, Some(cs[k].2@)))
}

/// Every entry is a constant whose type and value have source text.
pub open spec fn all_constants(entries: Seq<Option<(Option<Seq<char>>, Seq<char>, Option<Seq<char>>)>>) -> bool {
    forall|k: int| 0 <= k < entries.len() ==> (#[trigger] entries[k]) matches Some((Some(_), _, Some(_)))
}

/// `text` is the C# class for the parsed module `md`: present exactly when
/// it is a module with a body of constants only, all of whose types have C#
/// names.
pub open spec fn module_text(md: Option<Option<Seq<Option<(Option<Seq<char>>, Seq<char>, Option<Seq<char>>)>>>>, text: Option<String>) -> bool {
    match md {
        Some(Some(entries)) => if all_constants(entries) {
            exists|cs: Seq<(String, String, String)>| #[trigger] entries_match(entries, cs)
                && (text is Some <==> constants_typed(cs))
                && (text matches Some(t) ==> t@ == "using System;\nstatic class Constants {\n"@ + constant_lines(cs) + "}"@)
        } else {
            text is None
        },
        _ => text is None,
    }
}

/// The C# class of the constants of the parsed module `md` (see
/// `module_text`).
fn constants_text(md: &Option<Option<Vec<Option<(Option<String>, String, Option<String>)>>>>) -> (r: Option<String>)
    ensures
        module_text(md.deep_view(), r),
{
    let entries = match md {
        Some(Some(entries)) => entries,
        _ => {
            return None;
        },
    };
    let ghost ev = entries.deep_view();
    assert(md.deep_view() == Some(Some(ev)));
    let n = entries.len();
    let mut cs: Vec<(String, String, String)> = Vec::new();
    for i in 0..n
        invariant
            n == entries@.len(),
            ev == entries.deep_view(),
            md.deep_view() == Some(Some(ev)),
            cs@.len() == i,
            forall|k: int| 0 <= k < i ==> ev[k] == Some((Some((#[trigger] cs@[k]).0@), cs@[k].1@, Some(cs@[k].2@))),
    {
        match &entries[i] {
            Some((Some(t), name, Some(value))) => {
                cs.push((t.clone(), name.clone(), value.clone()));
            },
            _ => {
                proof {
                    assert(!(ev[i as int] matches Some((Some(_), _, Some(_)))));
                    assert(!all_constants(ev));
                }
                return None;
            },
        }
    }
    proof {
        assert(entries_match(ev, cs@));
        assert forall|k: int| 0 <= k < ev.len() implies (#[trigger] ev[k]) matches Some((Some(_), _, Some(_))) by {
            assert(ev[k] == Some((Some(cs@[k].0@), cs@[k].1@, Some(cs@[k].2@))));
        }
    }
    constants_checked(&cs)
}

/// The C# classes of the shared constants, one for each `constants` macro
/// call in the library root `root_src` (each `None` where that call's
/// module cannot be turned into C#); `None` if the root does not parse.
pub fn constants_files(root_src: &str) -> (r: Option<Vec<Option<String>>>)
    ensures
        match root_constants(root_src@) {
            None => r is None,
            Some(items) => r matches Some(ts) && ts@.len() == constants_macros(items).len() && forall|i: int|
                0 <= i < ts@.len() ==> module_text(constants_macros(items)[i], #[trigger] ts@[i]),
        },
{
    let items = match parse_root_constants(root_src) {
        Some(items) => items,
        None => {
            return None;
        },
    };
    let ghost iv = items.deep_view();
    let n = items.len();
    let mut ts: Vec<Option<String>> = Vec::new();
    proof {
        reveal_strlit("constants");
    }
    for i in 0..n
        invariant
            n == items@.len(),
            iv == items.deep_view(),
            ts@.len() == constants_macros(iv.subrange(0, i as int)).len(),
            forall|j: int| 0 <= j < ts@.len() ==> module_text(constants_macros(iv.subrange(0, i as int))[j], #[trigger] ts@[j]),
    {
        let ghost before = iv.subrange(0, i as int);
        proof {
            assert(iv.subrange(0, i as int + 1).drop_last() =~= before);
            assert(iv.subrange(0, i as int + 1).last() == iv[i as int]);
        }
        match &items[i] {
            Some((Some(name), md)) => {
                if crate::text::str_eq(name.as_str(), "constants") {
                    let t = constants_text(md);
                    let ghost old_ts = ts@;
                    ts.push(t);
                    proof {
                        assert forall|j: int| 0 <= j < ts@.len() implies module_text(constants_macros(iv.subrange(0, i as int + 1))[j], #[trigger] ts@[j]) by {
                            if j < old_ts.len() {
                                assert(ts@[j] == old_ts[j]);
                            }
                        }
                    }
                }
            },
            _ => {},
        }
    }
    proof {
        assert(iv.subrange(0, n as int) =~= iv);
    }
    Some(ts)
}

} // verus!
