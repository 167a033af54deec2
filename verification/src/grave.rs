//! Choosing where a file goes to rest without overwriting anything.
//!
//! Whether a path is taken is a question about the file system; the caller
//! answers it through a function `taken`, and the contracts say what holds
//! of the answers that were given.
use vstd::prelude::*;

use crate::text::{decimal, decimal_value, lemma_decimal_injective, lemma_decimal_value, push_decimal};

verus! {

/// The `i`-th numbered variant of `name`: `name~i`.
pub open spec fn numbered(name: Seq<char>, i: nat) -> Seq<char> {
    name + seq!['~'] + decimal(i)
}

/// Asked about a path with the text `p`, `taken` answered `answer`.
pub open spec fn reported<F: Fn(&str) -> bool>(taken: F, p: Seq<char>, answer: bool) -> bool {
    exists|s: &str| s@ == p && #[trigger] call_ensures(taken, (s,), answer)
}

/// `q` is the first numbered variant of `name` that `taken` reported free,
/// every earlier one having been reported taken.
pub open spec fn first_free_variant<F: Fn(&str) -> bool>(
    taken: F,
    name: Seq<char>,
    q: Seq<char>,
) -> bool {
    exists|i: nat|
        1 <= i && q == numbered(name, i) && reported(taken, q, false) && forall|j: nat|
            1 <= j < i ==> #[trigger] reported(taken, numbered(name, j), true)
}

/// Every numbered variant of `name` up to the largest `u64` was reported
/// taken.
pub open spec fn all_variants_taken<F: Fn(&str) -> bool>(taken: F, name: Seq<char>) -> bool {
    forall|j: nat| 1 <= j <= u64::MAX ==> #[trigger] reported(taken, numbered(name, j), true)
}

/// Adds a numbered extension to a duplicate name: the first of `name~1`,
/// `name~2`, ... that `taken` reports free.  `None` only when every number
/// that a `u64` holds was reported taken.
pub fn rename_grave<F: Fn(&str) -> bool>(grave: &str, taken: &F) -> (r: Option<String>)
    requires
        forall|s: &str| #[trigger] taken.requires((s,)),
    ensures
        match r {
            Some(p) => first_free_variant(*taken, grave@, p@),
            None => all_variants_taken(*taken, grave@),
        },
{
    let mut i: u64 = 1;
    loop
        invariant
            1 <= i,
            forall|s: &str| #[trigger] taken.requires((s,)),
            forall|j: nat| 1 <= j < i ==> #[trigger] reported(*taken, numbered(grave@, j), true),
        decreases u64::MAX - i,
    {
        let mut candidate = grave.to_owned();
        candidate.push('~');
        push_decimal(&mut candidate, i);
        let text = candidate.as_str();
        assert(text@ == numbered(grave@, i as nat));
        let is_taken = taken(text);
        if !is_taken {
            assert(reported(*taken, text@, false));
            return Some(candidate);
        }
        assert(reported(*taken, numbered(grave@, i as nat), true));
        if i == u64::MAX {
            return None;
        }
        i = i + 1;
    }
}

/// A path for something to come to rest at `p` without overwriting
/// anything: `p` itself when `taken` reports it free, otherwise its first
/// numbered variant reported free.  Whatever is returned was reported free.
pub fn vacant_path<F: Fn(&str) -> bool>(p: &str, taken: &F) -> (r: Option<String>)
    requires
        forall|s: &str| #[trigger] taken.requires((s,)),
    ensures
        match r {
            Some(q) => reported(*taken, q@, false) && (q@ == p@ || (reported(*taken, p@, true)
                && first_free_variant(*taken, p@, q@))),
            None => reported(*taken, p@, true) && all_variants_taken(*taken, p@),
        },
{
    if taken(p) {
        rename_grave(p, taken)
    } else {
        Some(p.to_owned())
    }
}

/// Numbered variants of one name never clash: the variant for `i` names
/// the number `i` in full, so different numbers give different names.
pub proof fn lemma_numbered_injective(name: Seq<char>, i: nat, j: nat)
    requires
        i != j,
    ensures
        numbered(name, i) != numbered(name, j),
{
    lemma_decimal_injective(i, j);
    let off = name.len() + 1;
    if numbered(name, i) == numbered(name, j) {
        assert(numbered(name, i).subrange(off as int, numbered(name, i).len() as int) =~= decimal(i));
        assert(numbered(name, j).subrange(off as int, numbered(name, j).len() as int) =~= decimal(j));
    }
}

/// The variant for `i` is the name, `~` and the digits of `i`, which read
/// back as `i`.
pub proof fn lemma_numbered_shape(name: Seq<char>, i: nat)
    ensures
        numbered(name, i).subrange(0, name.len() as int) == name,
        numbered(name, i)[name.len() as int] == '~',
        decimal_value(numbered(name, i).subrange((name.len() + 1) as int, numbered(name, i).len() as int))
            == i,
{
    lemma_decimal_value(i);
    assert(numbered(name, i).subrange(0, name.len() as int) =~= name);
    assert(numbered(name, i).subrange((name.len() + 1) as int, numbered(name, i).len() as int) =~= decimal(
        i,
    ));
}

} // verus!
