//! Sequences of handles: what is made of them, and what holds of it.
use crate::handle::SeqKey;
use vstd::prelude::*;

verus! {

/// `keys` without the entries that occur in `banned`, order kept.
pub open spec fn without(keys: Seq<SeqKey>, banned: Seq<SeqKey>) -> Seq<SeqKey>
    decreases keys.len(),
{
    if keys.len() == 0 {
        Seq::empty()
    } else if banned.contains(keys.last()) {
        without(keys.drop_last(), banned)
    } else {
        without(keys.drop_last(), banned).push(keys.last())
    }
}

/// `keys` with every occurrence of `from` replaced by `to`.
pub open spec fn renamed(keys: Seq<SeqKey>, from: SeqKey, to: SeqKey) -> Seq<SeqKey> {
    Seq::new(keys.len(), |i: int| if keys[i] == from { to } else { keys[i] })
}

/// The first occurrence of each entry of `keys`, order kept.
pub open spec fn distinct(keys: Seq<SeqKey>) -> Seq<SeqKey>
    decreases keys.len(),
{
    if keys.len() == 0 {
        Seq::empty()
    } else if distinct(keys.drop_last()).contains(keys.last()) {
        distinct(keys.drop_last())
    } else {
        distinct(keys.drop_last()).push(keys.last())
    }
}

/// Membership in a sequence extended by one entry.
pub proof fn lemma_push_contains<A>(s: Seq<A>, a: A, x: A)
    ensures
        s.push(a).contains(x) <==> s.contains(x) || x == a,
{
    if s.contains(x) {
        let i = choose|i: int| 0 <= i < s.len() && s[i] == x;
        assert(s.push(a)[i] == x);
    }
    if x == a {
        assert(s.push(a)[s.len() as int] == x);
    }
}

/// A sequence without duplicates stays so when a new entry is appended.
pub proof fn lemma_push_no_duplicates<A>(s: Seq<A>, a: A)
    requires
        s.no_duplicates(),
        !s.contains(a),
    ensures
        s.push(a).no_duplicates(),
{
    assert forall|i: int, j: int|
        0 <= i < s.push(a).len() && 0 <= j < s.push(a).len() && i != j implies s.push(a)[i]
        != s.push(a)[j] by {
        if i < s.len() && j == s.len() {
            assert(s[i] != a);
        }
        if j < s.len() && i == s.len() {
            assert(s[j] != a);
        }
    }
}

/// Membership in a concatenation.
pub proof fn lemma_concat_contains<A>(s: Seq<A>, t: Seq<A>, x: A)
    ensures
        (s + t).contains(x) <==> s.contains(x) || t.contains(x),
{
    if s.contains(x) {
        let i = choose|i: int| 0 <= i < s.len() && s[i] == x;
        assert((s + t)[i] == x);
    }
    if t.contains(x) {
        let i = choose|i: int| 0 <= i < t.len() && t[i] == x;
        assert((s + t)[s.len() + i] == x);
    }
    if (s + t).contains(x) {
        let i = choose|i: int| 0 <= i < (s + t).len() && (s + t)[i] == x;
        if i < s.len() {
            assert(s[i] == x);
        } else {
            assert(t[i - s.len()] == x);
        }
    }
}

/// Two sequences without duplicates that share no entry concatenate to one
/// without duplicates.
pub proof fn lemma_concat_no_duplicates<A>(s: Seq<A>, t: Seq<A>)
    requires
        s.no_duplicates(),
        t.no_duplicates(),
        forall|x: A| s.contains(x) ==> !t.contains(x),
    ensures
        (s + t).no_duplicates(),
{
    assert forall|i: int, j: int|
        0 <= i < (s + t).len() && 0 <= j < (s + t).len() && i != j implies (s + t)[i] != (s
        + t)[j] by {
        if i < s.len() && j >= s.len() {
            assert(s.contains(s[i]));
            assert(t.contains(t[j - s.len()]));
        }
        if j < s.len() && i >= s.len() {
            assert(s.contains(s[j]));
            assert(t.contains(t[i - s.len()]));
        }
    }
}

/// A prefix extended by the next entry is the next prefix.
pub proof fn lemma_take_next<A>(s: Seq<A>, i: int)
    requires
        0 <= i < s.len(),
    ensures
        s.take(i + 1) == s.take(i).push(s[i]),
        s.take(i + 1).drop_last() == s.take(i),
        s.take(i + 1).last() == s[i],
{
    assert(s.take(i + 1) =~= s.take(i).push(s[i]));
    assert(s.take(i + 1).drop_last() =~= s.take(i));
}

/// What `without` keeps: the entries that are not banned, each as often as
/// before.
pub proof fn lemma_without(keys: Seq<SeqKey>, banned: Seq<SeqKey>)
    ensures
        forall|x: SeqKey| #[trigger]
            without(keys, banned).contains(x) <==> keys.contains(x) && !banned.contains(x),
        keys.no_duplicates() ==> without(keys, banned).no_duplicates(),
        (forall|i: int| 0 <= i < keys.len() ==> !banned.contains(#[trigger] keys[i])) ==> without(
            keys,
            banned,
        ) == keys,
    decreases keys.len(),
{
    if keys.len() > 0 {
        let rest = keys.drop_last();
        let last = keys.last();
        lemma_without(rest, banned);
        assert(keys =~= rest.push(last));
        assert forall|x: SeqKey| #[trigger]
            without(keys, banned).contains(x) <==> keys.contains(x) && !banned.contains(x) by {
            lemma_push_contains(rest, last, x);
            lemma_push_contains(without(rest, banned), last, x);
        }
        if keys.no_duplicates() {
            assert(rest.no_duplicates()) by {
                assert forall|i: int, j: int|
                    0 <= i < rest.len() && 0 <= j < rest.len() && i != j implies rest[i]
                    != rest[j] by {
                    assert(rest[i] == keys[i] && rest[j] == keys[j]);
                }
            }
            if !banned.contains(last) {
                assert(!rest.contains(last)) by {
                    if rest.contains(last) {
                        let i = choose|i: int| 0 <= i < rest.len() && rest[i] == last;
                        assert(keys[i] == keys[keys.len() - 1]);
                    }
                }
                lemma_push_no_duplicates(without(rest, banned), last);
            }
        }
        if forall|i: int| 0 <= i < keys.len() ==> !banned.contains(#[trigger] keys[i]) {
            assert(forall|i: int| 0 <= i < rest.len() ==> rest[i] == keys[i]);
            assert(!banned.contains(keys[keys.len() - 1]));
        }
    } else {
        assert(without(keys, banned) =~= keys);
    }
}

/// What `renamed` holds: `to` where `from` stood, every other entry as
/// before.
pub proof fn lemma_renamed(keys: Seq<SeqKey>, from: SeqKey, to: SeqKey)
    ensures
        renamed(keys, from, to).len() == keys.len(),
        forall|x: SeqKey| #[trigger]
            renamed(keys, from, to).contains(x) <==> (x != from && keys.contains(x)) || (x == to
                && keys.contains(from)),
        keys.no_duplicates() && !keys.contains(to) ==> renamed(keys, from, to).no_duplicates(),
{
    let r = renamed(keys, from, to);
    assert forall|x: SeqKey| #[trigger]
        r.contains(x) <==> (x != from && keys.contains(x)) || (x == to && keys.contains(
            from,
        )) by {
        if r.contains(x) {
            let i = choose|i: int| 0 <= i < r.len() && r[i] == x;
            assert(keys.contains(keys[i]));
        }
        if x != from && keys.contains(x) {
            let i = choose|i: int| 0 <= i < keys.len() && keys[i] == x;
            assert(r[i] == x);
        }
        if x == to && keys.contains(from) {
            let i = choose|i: int| 0 <= i < keys.len() && keys[i] == from;
            assert(r[i] == x);
        }
    }
    if keys.no_duplicates() && !keys.contains(to) {
        assert forall|i: int, j: int| 0 <= i < r.len() && 0 <= j < r.len() && i != j implies r[i]
            != r[j] by {
            assert(keys.contains(keys[i]));
            assert(keys.contains(keys[j]));
        }
    }
}

/// What `distinct` holds: every entry of `keys`, each once.
pub proof fn lemma_distinct(keys: Seq<SeqKey>)
    ensures
        distinct(keys).no_duplicates(),
        distinct(keys).len() <= keys.len(),
        keys.len() > 0 ==> distinct(keys).len() > 0,
        forall|x: SeqKey| #[trigger] distinct(keys).contains(x) <==> keys.contains(x),
        keys.no_duplicates() ==> distinct(keys) == keys,
    decreases keys.len(),
{
    if keys.len() > 0 {
        let rest = keys.drop_last();
        let last = keys.last();
        lemma_distinct(rest);
        assert(keys =~= rest.push(last));
        assert forall|x: SeqKey| #[trigger] distinct(keys).contains(x) <==> keys.contains(x) by {
            lemma_push_contains(rest, last, x);
            lemma_push_contains(distinct(rest), last, x);
        }
        if !distinct(rest).contains(last) {
            lemma_push_no_duplicates(distinct(rest), last);
        }
        if keys.no_duplicates() {
            assert(rest.no_duplicates()) by {
                assert forall|i: int, j: int|
                    0 <= i < rest.len() && 0 <= j < rest.len() && i != j implies rest[i]
                    != rest[j] by {
                    assert(rest[i] == keys[i] && rest[j] == keys[j]);
                }
            }
            assert(!rest.contains(last)) by {
                if rest.contains(last) {
                    let i = choose|i: int| 0 <= i < rest.len() && rest[i] == last;
                    assert(keys[i] == keys[keys.len() - 1]);
                }
            }
        }
    } else {
        assert(distinct(keys) =~= keys);
    }
}

/// Two sequences without duplicates that hold the same entries hold each of
/// them equally often.
pub proof fn lemma_same_entries<A>(s: Seq<A>, t: Seq<A>)
    requires
        s.no_duplicates(),
        t.no_duplicates(),
        forall|x: A| s.contains(x) <==> t.contains(x),
    ensures
        s.to_multiset() == t.to_multiset(),
{
    s.lemma_multiset_has_no_duplicates();
    t.lemma_multiset_has_no_duplicates();
    assert forall|x: A| s.to_multiset().count(x) == t.to_multiset().count(x) by {
        vstd::seq_lib::to_multiset_contains(s, x);
        vstd::seq_lib::to_multiset_contains(t, x);
        assert(s.contains(x) <==> t.contains(x));
    }
    assert(s.to_multiset() =~= t.to_multiset());
}

/// In a sequence without duplicates an entry is found where it stands.
pub proof fn lemma_index_of(keys: Seq<SeqKey>, i: int)
    requires
        keys.no_duplicates(),
        0 <= i < keys.len(),
    ensures
        keys.contains(keys[i]),
        keys.index_of(keys[i]) == i,
{
    let j = keys.index_of(keys[i]);
    assert(0 <= j < keys.len() && keys[j] == keys[i]);
}

} // verus!
