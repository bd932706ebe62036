use vstd::prelude::*;
use crate::types::{name_in, names_distinct};

verus! {

/// Strict lexicographic order on character sequences, by code point.
pub open spec fn lex_lt(a: Seq<char>, b: Seq<char>) -> bool
    decreases a.len(),
{
    if b.len() == 0 {
        false
    } else if a.len() == 0 {
        true
    } else if a[0] == b[0] {
        lex_lt(a.drop_first(), b.drop_first())
    } else {
        (a[0] as int) < (b[0] as int)
    }
}

/// Reflexive lexicographic order.
pub open spec fn lex_le(a: Seq<char>, b: Seq<char>) -> bool {
    a == b || lex_lt(a, b)
}

pub proof fn lemma_lex_lt_irrefl(a: Seq<char>)
    ensures
        !lex_lt(a, a),
    decreases a.len(),
{
    if a.len() > 0 {
        lemma_lex_lt_irrefl(a.drop_first());
    }
}

pub proof fn lemma_lex_lt_trans(a: Seq<char>, b: Seq<char>, c: Seq<char>)
    requires
        lex_lt(a, b),
        lex_lt(b, c),
    ensures
        lex_lt(a, c),
    decreases a.len(),
{
    if c.len() == 0 || a.len() == 0 {
    } else if a[0] == b[0] && b[0] == c[0] {
        lemma_lex_lt_trans(a.drop_first(), b.drop_first(), c.drop_first());
    }
}

/// Two sequences neither of which precedes the other are equal.
pub proof fn lemma_lex_connex(a: Seq<char>, b: Seq<char>)
    requires
        !lex_lt(a, b),
        !lex_lt(b, a),
    ensures
        a == b,
    decreases a.len(),
{
    if a.len() == 0 && b.len() == 0 {
        assert(a =~= b);
    } else if a.len() > 0 && b.len() > 0 {
        if a[0] == b[0] {
            lemma_lex_connex(a.drop_first(), b.drop_first());
            assert forall|i: int| 0 <= i < a.len() implies a[i] == b[i] by {
                if i > 0 {
                    assert(a.drop_first()[i - 1] == b.drop_first()[i - 1]);
                }
            }
            assert(a =~= b);
        } else {
            assert((a[0] as int) != (b[0] as int));
            assert(false);
        }
    }
}

pub proof fn lemma_lex_antisym(a: Seq<char>, b: Seq<char>)
    requires
        lex_le(a, b),
        lex_le(b, a),
    ensures
        a == b,
{
    if lex_lt(a, b) && lex_lt(b, a) {
        lemma_lex_lt_trans(a, b, a);
        lemma_lex_lt_irrefl(a);
    }
}

/// Executable comparison matching `lex_lt`.
pub fn str_lt(a: &str, b: &str) -> (r: bool)
    ensures
        r == lex_lt(a@, b@),
    decreases a@.len(),
{
    let bl = b.unicode_len();
    if bl == 0 {
        return false;
    }
    let al = a.unicode_len();
    if al == 0 {
        return true;
    }
    let ca = a.get_char(0);
    let cb = b.get_char(0);
    if ca == cb {
        let ta = a.substring_char(1, al);
        let tb = b.substring_char(1, bl);
        proof {
            assert(ta@ =~= a@.drop_first());
            assert(tb@ =~= b@.drop_first());
        }
        str_lt(ta, tb)
    } else {
        ca < cb
    }
}

/// A duplicate-free sequence of names drawn from another sequence is no longer
/// than it.
pub proof fn lemma_distinct_names_len(a: Seq<Seq<char>>, b: Seq<Seq<char>>)
    requires
        names_distinct(a),
        forall|i: int| 0 <= i < a.len() ==> name_in(b, #[trigger] a[i]),
    ensures
        a.len() <= b.len(),
{
    broadcast use vstd::set::group_set_axioms;

    assert(a.no_duplicates());
    a.unique_seq_to_set();
    b.lemma_cardinality_of_set();
    assert forall|x: Seq<char>| a.to_set().contains(x) implies b.to_set().contains(x) by {
        let i = choose|i: int| 0 <= i < a.len() && a[i] == x;
        assert(name_in(b, a[i]));
        let j = choose|j: int| 0 <= j < b.len() && b[j] == x;
        assert(b.contains(b[j]));
    }
    vstd::set_lib::lemma_len_subset(a.to_set(), b.to_set());
}

/// Two duplicate-free name sequences, one drawn from the other and of equal
/// length, contain exactly the same names.
pub proof fn lemma_distinct_names_cover(a: Seq<Seq<char>>, b: Seq<Seq<char>>)
    requires
        names_distinct(a),
        names_distinct(b),
        a.len() == b.len(),
        forall|i: int| 0 <= i < a.len() ==> name_in(b, #[trigger] a[i]),
    ensures
        forall|i: int| 0 <= i < b.len() ==> name_in(a, #[trigger] b[i]),
{
    broadcast use vstd::set::group_set_axioms;

    assert(a.no_duplicates());
    assert(b.no_duplicates());
    a.unique_seq_to_set();
    b.unique_seq_to_set();
    assert forall|x: Seq<char>| a.to_set().contains(x) implies b.to_set().contains(x) by {
        let i = choose|i: int| 0 <= i < a.len() && a[i] == x;
        assert(name_in(b, a[i]));
        let j = choose|j: int| 0 <= j < b.len() && b[j] == x;
        assert(b.contains(b[j]));
    }
    vstd::set_lib::lemma_subset_equality(a.to_set(), b.to_set());
    assert forall|i: int| 0 <= i < b.len() implies name_in(a, #[trigger] b[i]) by {
        assert(b.contains(b[i]));
        assert(a.to_set().contains(b[i]));
        let j = choose|j: int| 0 <= j < a.len() && a[j] == b[i];
    }
}

/// Within a duplicate-free name sequence, equal names sit at equal indices.
pub proof fn lemma_distinct_name_index(names: Seq<Seq<char>>, a: int, b: int)
    requires
        names_distinct(names),
        0 <= a < names.len(),
        0 <= b < names.len(),
        names[a] == names[b],
    ensures
        a == b,
{
    if a < b {
        assert(names[a] != names[b]);
    }
    if b < a {
        assert(names[b] != names[a]);
    }
}

/// Linear search for a name among a vector of package names.
pub fn contains_name(names: &Vec<String>, name: &String) -> (r: bool)
    ensures
        r == name_in(names.deep_view(), name@),
{
    let mut i: usize = 0;
    while i < names.len()
        invariant
            0 <= i <= names.len(),
            forall|j: int| 0 <= j < i ==> names.deep_view()[j] != name@,
        decreases names.len() - i,
    {
        if names[i] == *name {
            assert(names.deep_view()[i as int] == name@);
            return true;
        }
        i = i + 1;
    }
    false
}

} // verus!
