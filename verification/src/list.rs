//! Lists: their views, their distinct elements, and lists kept under names.

use vstd::hash_map::StringHashMap;
use vstd::prelude::*;

verus! {

/// The views of the elements of `s`.
pub open spec fn views<T: View>(s: Seq<T>) -> Seq<T::V> {
    Seq::new(s.len(), |i: int| s[i]@)
}

/// The elements of `s` in order, each where it first occurs.
pub open spec fn distinct<A>(s: Seq<A>) -> Seq<A>
    decreases s.len(),
{
    if s.len() == 0 {
        s
    } else {
        let before = distinct(s.drop_last());
        if s.drop_last().contains(s.last()) {
            before
        } else {
            before.push(s.last())
        }
    }
}

/// `distinct` drops repetitions and nothing else: it holds what `s` holds, once each.
pub proof fn law_distinct<A>(s: Seq<A>)
    ensures
        distinct(s).no_duplicates(),
        forall|x: A| #[trigger] distinct(s).contains(x) <==> s.contains(x),
        distinct(s).len() <= s.len(),
    decreases s.len(),
{
    if s.len() > 0 {
        let rest = s.drop_last();
        law_distinct(rest);
        assert forall|x: A| #[trigger] distinct(s).contains(x) <==> s.contains(x) by {
            if s.contains(x) {
                let i = choose|i: int| 0 <= i < s.len() && s[i] == x;
                if i < s.len() - 1 {
                    assert(rest[i] == x);
                    assert(distinct(rest).contains(x));
                    let k = choose|k: int| 0 <= k < distinct(rest).len() && distinct(rest)[k] == x;
                    assert(distinct(s)[k] == x);
                } else if rest.contains(x) {
                    assert(distinct(rest).contains(x));
                } else {
                    assert(distinct(s).last() == x);
                }
            }
            if distinct(s).contains(x) {
                let k = choose|k: int| 0 <= k < distinct(s).len() && distinct(s)[k] == x;
                if k < distinct(rest).len() {
                    assert(distinct(rest)[k] == x);
                    assert(distinct(rest).contains(x));
                    assert(rest.contains(x));
                    let i = choose|i: int| 0 <= i < rest.len() && rest[i] == x;
                    assert(s[i] == x);
                } else {
                    assert(s[s.len() - 1] == x);
                }
            }
        }
        if !rest.contains(s.last()) {
            assert(!distinct(rest).contains(s.last()));
        }
    } else {
        assert(forall|x: A| !s.contains(x));
    }
}

/// Where both of two elements occur, `distinct` keeps the order of their first occurrences.
pub proof fn law_distinct_keeps_order<A>(s: Seq<A>, a: int, b: int)
    requires
        0 <= a < b < distinct(s).len(),
    ensures
        exists|i: int, j: int|
            #![trigger s[i], s[j]]
            {
                &&& 0 <= i < j < s.len()
                &&& s[i] == distinct(s)[a]
                &&& s[j] == distinct(s)[b]
                &&& !s.take(i).contains(s[i])
                &&& !s.take(j).contains(s[j])
            },
    decreases s.len(),
{
    let rest = s.drop_last();
    law_distinct(rest);
    if b < distinct(rest).len() {
        law_distinct_keeps_order(rest, a, b);
        let (i, j) = choose|i: int, j: int|
            #![trigger rest[i], rest[j]]
            {
                &&& 0 <= i < j < rest.len()
                &&& rest[i] == distinct(rest)[a]
                &&& rest[j] == distinct(rest)[b]
                &&& !rest.take(i).contains(rest[i])
                &&& !rest.take(j).contains(rest[j])
            };
        assert(rest.take(i) == s.take(i));
        assert(rest.take(j) == s.take(j));
        assert(s[i] == rest[i] && s[j] == rest[j]);
    } else {
        lemma_distinct_source(rest, a);
        let i = choose|i: int|
            0 <= i < rest.len() && #[trigger] rest[i] == distinct(rest)[a] && !rest.take(i).contains(
                rest[i],
            );
        let j = s.len() - 1;
        assert(rest.take(i) == s.take(i));
        assert(s.take(j) == rest);
        assert(s[i] == rest[i] && s[j] == s.last());
    }
}

proof fn lemma_distinct_source<A>(s: Seq<A>, a: int)
    requires
        0 <= a < distinct(s).len(),
    ensures
        exists|i: int|
            0 <= i < s.len() && #[trigger] s[i] == distinct(s)[a] && !s.take(i).contains(s[i]),
    decreases s.len(),
{
    let rest = s.drop_last();
    if a < distinct(rest).len() {
        lemma_distinct_source(rest, a);
        let i = choose|i: int|
            0 <= i < rest.len() && #[trigger] rest[i] == distinct(rest)[a] && !rest.take(i).contains(
                rest[i],
            );
        assert(rest.take(i) == s.take(i));
        assert(s[i] == rest[i]);
    } else {
        let j = s.len() - 1;
        assert(s.take(j) == rest);
        assert(s[j] == s.last());
    }
}

/// The list kept under `name`, empty where there is none.
pub open spec fn list_at<T>(lists: Map<Seq<char>, Vec<T>>, name: Seq<char>) -> Seq<T> {
    if lists.contains_key(name) {
        lists[name]@
    } else {
        Seq::empty()
    }
}

/// Appends `value` to the list kept under `name`.
pub(crate) fn push_at<T: Copy>(lists: &mut StringHashMap<Vec<T>>, name: &str, value: T)
    ensures
        forall|k: Seq<char>| #[trigger]
            list_at(final(lists)@, k) == if k == name@ {
                list_at(old(lists)@, k).push(value)
            } else {
                list_at(old(lists)@, k)
            },
        final(lists)@.contains_key(name@),
{
    let mut list: Vec<T> = Vec::new();
    match lists.get(name) {
        Some(present) => {
            let mut i: usize = 0;
            while i < present.len()
                invariant
                    i <= present@.len(),
                    list@ == present@.take(i as int),
                decreases present@.len() - i,
            {
                list.push(present[i]);
                i += 1;
            }
            assert(present@.take(i as int) == present@);
        },
        None => {},
    }
    list.push(value);
    lists.insert(name.to_string(), list);
}

/// Whether the element at `i` is the first that `f` maps to `x`.
pub open spec fn maps_first<A, B>(s: Seq<A>, f: spec_fn(A) -> Option<B>, i: int, x: B) -> bool {
    &&& 0 <= i < s.len()
    &&& f(s[i]) == Some(x)
    &&& forall|k: int| 0 <= k < i ==> f(#[trigger] s[k]) != Some(x)
}

/// What the elements of a list are mapped to, without repetition: it holds what some element is
/// mapped to, once each, in the order in which elements are first mapped to it.
pub proof fn law_distinct_images<A, B>(s: Seq<A>, f: spec_fn(A) -> Option<B>)
    ensures
        distinct(s.filter_map(f)).no_duplicates(),
        forall|x: B| #[trigger]
            distinct(s.filter_map(f)).contains(x) <==> exists|i: int|
                0 <= i < s.len() && f(#[trigger] s[i]) == Some(x),
        forall|x: B| #[trigger]
            distinct(s.filter_map(f)).contains(x) ==> exists|i: int| #[trigger]
                maps_first(s, f, i, x),
        forall|a: int, b: int, i: int, j: int|
            0 <= a < b < distinct(s.filter_map(f)).len() && #[trigger] maps_first(
                s,
                f,
                i,
                distinct(s.filter_map(f))[a],
            ) && #[trigger] maps_first(s, f, j, distinct(s.filter_map(f))[b]) ==> i < j,
{
    let out = distinct(s.filter_map(f));
    law_distinct(s.filter_map(f));
    assert forall|x: B| #[trigger] out.contains(x) <==> exists|i: int|
        0 <= i < s.len() && f(#[trigger] s[i]) == Some(x) by {
        lemma_image(s, f, x);
    }
    assert forall|x: B| #[trigger] out.contains(x) implies exists|i: int| #[trigger]
        maps_first(s, f, i, x) by {
        let k = choose|k: int| 0 <= k < s.len() && f(#[trigger] s[k]) == Some(x);
        lemma_maps_first(s, f, k, x);
    }
    assert forall|a: int, b: int, i: int, j: int|
        0 <= a < b < out.len() && #[trigger] maps_first(s, f, i, out[a]) && #[trigger] maps_first(
            s,
            f,
            j,
            out[b],
        ) implies i < j by {
        lemma_images_in_order(s, f, a, b, i, j);
    }
}

/// One more element adds what it is mapped to, where that is new.
proof fn lemma_one_more_image<A, B>(s: Seq<A>, f: spec_fn(A) -> Option<B>)
    requires
        s.len() > 0,
    ensures
        match f(s.last()) {
            Some(x) if !distinct(s.drop_last().filter_map(f)).contains(x) => distinct(
                s.filter_map(f),
            ) == distinct(s.drop_last().filter_map(f)).push(x),
            _ => distinct(s.filter_map(f)) == distinct(s.drop_last().filter_map(f)),
        },
{
    let before = s.drop_last().filter_map(f);
    if let Some(x) = f(s.last()) {
        law_distinct(before);
        assert(s.filter_map(f) == before.push(x));
        assert(before.push(x).drop_last() == before);
    }
}

proof fn lemma_image<A, B>(s: Seq<A>, f: spec_fn(A) -> Option<B>, x: B)
    ensures
        distinct(s.filter_map(f)).contains(x) <==> exists|i: int|
            0 <= i < s.len() && f(#[trigger] s[i]) == Some(x),
    decreases s.len(),
{
    if s.len() > 0 {
        let rest = s.drop_last();
        let before = distinct(rest.filter_map(f));
        let out = distinct(s.filter_map(f));
        lemma_one_more_image(s, f);
        lemma_image(rest, f, x);
        if before.contains(x) {
            let i = choose|i: int| 0 <= i < rest.len() && f(#[trigger] rest[i]) == Some(x);
            assert(f(s[i]) == Some(x));
            let k = choose|k: int| 0 <= k < before.len() && before[k] == x;
            assert(out[k] == x);
        } else if f(s.last()) == Some(x) {
            assert(out.last() == x);
            assert(f(s[s.len() - 1]) == Some(x));
        } else {
            assert forall|i: int| 0 <= i < s.len() implies f(#[trigger] s[i]) != Some(x) by {
                if i < rest.len() {
                    assert(rest[i] == s[i]);
                }
            }
            if out.contains(x) {
                let k = choose|k: int| 0 <= k < out.len() && out[k] == x;
                if k < before.len() {
                    assert(before[k] == x);
                }
            }
        }
    } else {
        assert(s.filter_map(f).len() == 0);
    }
}

proof fn lemma_maps_first<A, B>(s: Seq<A>, f: spec_fn(A) -> Option<B>, k: int, x: B)
    requires
        0 <= k < s.len(),
        f(s[k]) == Some(x),
    ensures
        exists|i: int| #[trigger] maps_first(s, f, i, x),
    decreases k,
{
    if exists|i: int| 0 <= i < k && f(#[trigger] s[i]) == Some(x) {
        let i = choose|i: int| 0 <= i < k && f(#[trigger] s[i]) == Some(x);
        lemma_maps_first(s, f, i, x);
    } else {
        assert(maps_first(s, f, k, x));
    }
}

proof fn lemma_images_in_order<A, B>(
    s: Seq<A>,
    f: spec_fn(A) -> Option<B>,
    a: int,
    b: int,
    i: int,
    j: int,
)
    requires
        0 <= a < b < distinct(s.filter_map(f)).len(),
        maps_first(s, f, i, distinct(s.filter_map(f))[a]),
        maps_first(s, f, j, distinct(s.filter_map(f))[b]),
    ensures
        i < j,
    decreases s.len(),
{
    let out = distinct(s.filter_map(f));
    let rest = s.drop_last();
    let before = distinct(rest.filter_map(f));
    let n = s.len() - 1;
    lemma_one_more_image(s, f);
    assert(out[a] == before[a]);
    assert(before.contains(before[a]));
    lemma_image(rest, f, before[a]);
    let k = choose|k: int| 0 <= k < rest.len() && f(#[trigger] rest[k]) == Some(before[a]);
    assert(s[k] == rest[k]);
    assert(i != n);
    assert(rest[i] == s[i]);
    assert forall|m: int| 0 <= m < n implies #[trigger] rest[m] == s[m] by {}
    assert(maps_first(rest, f, i, before[a]));
    if j != n {
        assert(rest[j] == s[j]);
        lemma_image(rest, f, out[b]);
        assert(before.contains(out[b]));
        assert(b < before.len());
        assert(maps_first(rest, f, j, before[b]));
        lemma_images_in_order(rest, f, a, b, i, j);
    }
}

} // verus!
