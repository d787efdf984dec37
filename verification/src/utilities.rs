//! Small helpers: lifetime labels and pointer dereferencing on types.
use vstd::prelude::*;
use crate::ir::Type;
use crate::text::{decimal, push_char, push_decimal};

verus! {

/// The number of letters that a label cycles through before it takes a
/// numeric suffix.
pub const ALPHABET_SIZE: usize = 26;

/// The code of the letter `a`.
pub const LOWERCASE_A_OFFSET: usize = 97;

/// The label of the lifetime numbered `num`: the letter `a + num % 26`,
/// followed by the decimal numeral of `num / 26` when that is not zero
/// (`a`, ..., `z`, `a1`, ..., `z1`, `a2`, ...).
pub open spec fn label_of(num: nat) -> Seq<char> {
    let letter = ((num % 26) + 97) as char;
    if num / 26 > 0 {
        seq![letter] + decimal(num / 26)
    } else {
        seq![letter]
    }
}

/// Renders `num` as a lifetime label; see [`label_of`].
pub fn usize_to_string(num: usize) -> (s: String)
    ensures
        s@ == label_of(num as nat),
{
    let idx = num / ALPHABET_SIZE;
    let ascii_code = ((num % ALPHABET_SIZE) + LOWERCASE_A_OFFSET) as u8;
    let ascii_char = ascii_code as char;
    let mut s = String::new();
    push_char(&mut s, ascii_char);
    if idx > 0 {
        push_decimal(&mut s, idx);
    }
    proof {
        assert(ascii_char == ((num as nat % 26) + 97) as char);
        if idx > 0 {
            assert(s@ =~= seq![ascii_char] + decimal(idx as nat));
        } else {
            assert(s@ =~= seq![ascii_char]);
        }
    }
    s
}

/// The type that a value of type `ty` points at, if `ty` is a pointer type.
pub open spec fn pointee_of(ty: Type) -> Option<Type> {
    match ty {
        Type::PointerType { pointee_type, .. } => Some(*pointee_type),
        _ => None,
    }
}

/// The type that a value of type `ty` points at, if `ty` is a pointer type.
pub fn dereference_type(ty: &Type) -> (r: Option<Type>)
    ensures
        r == pointee_of(*ty),
{
    match ty {
        Type::PointerType { pointee_type, .. } => Some((**pointee_type).clone()),
        _ => None,
    }
}

/// Different numbers get different labels, so no two lifetime variables of
/// a signature share a label.
pub proof fn lemma_label_injective(a: nat, b: nat)
    requires
        label_of(a) == label_of(b),
    ensures
        a == b,
{
    let la = ((a % 26) + 97) as char;
    let lb = ((b % 26) + 97) as char;
    assert(label_of(a)[0] == la);
    assert(label_of(b)[0] == lb);
    assert(la as u32 == (a % 26) + 97);
    assert(lb as u32 == (b % 26) + 97);
    assert(a % 26 == b % 26);
    crate::text::lemma_decimal_len(a / 26);
    crate::text::lemma_decimal_len(b / 26);
    if a / 26 > 0 {
        assert(b / 26 > 0);
        assert(label_of(a).skip(1) =~= decimal(a / 26));
        assert(label_of(b).skip(1) =~= decimal(b / 26));
        crate::text::lemma_decimal_injective(a / 26, b / 26);
    } else {
        assert(b / 26 == 0);
    }
}

} // verus!
