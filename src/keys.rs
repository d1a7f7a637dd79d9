//! Key paths: their dotted form, the exclusion filter and the three-way
//! partition of two key collections.

use itertools::Itertools;
use vstd::laws_eq::*;
use vstd::prelude::*;
use vstd::std_specs::cmp::PartialEqSpec;
use vstd::string::*;

verus! {

/// A key path: the labels from the document root down to one leaf.
pub type Key = Vec<String>;

/// The dotted form of a key path: its segments joined by `.`.
pub open spec fn dotted(segs: Seq<Seq<char>>) -> Seq<char>
    decreases segs.len(),
{
    if segs.len() == 0 {
        Seq::empty()
    } else if segs.len() == 1 {
        segs[0]
    } else {
        dotted(segs.drop_last()) + seq!['.'] + segs.last()
    }
}

/// Relies on `itertools::Itertools::join`: the first segment, then `.` and
/// the next segment for each one that follows, or the empty string.
#[verifier::external_body]
fn join_dotted(key: &Key) -> (r: String)
    ensures
        r@ == dotted(key.deep_view()),
{
    key.iter().join(".")
}

/// The dotted form of a key path, as shown to a reader and as matched by
/// the exclusion filter.
pub fn dotted_form(key: &Key) -> (r: String)
    ensures
        r@ == dotted(key.deep_view()),
{
    join_dotted(key)
}

/// Whether some element of `s` equals `x` (the element of `s` on the left
/// of `==`).
pub open spec fn present<T: PartialEq>(s: Seq<T>, x: T) -> bool {
    exists|j: int| 0 <= j < s.len() && #[trigger] s[j].eq_spec(&x)
}

/// The elements of `a`, in order, that occur nowhere in `b`.
pub open spec fn only_in<T: PartialEq>(a: Seq<T>, b: Seq<T>) -> Seq<T> {
    a.filter(|x: T| !present(b, x))
}

/// The elements of `a`, in order, that also occur in `b`.
pub open spec fn found_in<T: PartialEq>(a: Seq<T>, b: Seq<T>) -> Seq<T> {
    a.filter(|x: T| present(b, x))
}

/// The shared elements seen from `a` and those seen from `b` are the same
/// set: each of either list occurs in the other.
pub open spec fn symmetric<T: PartialEq>(a: Seq<T>, b: Seq<T>) -> bool {
    &&& forall|m: int|
        0 <= m < found_in(a, b).len() ==> present(found_in(b, a), #[trigger] found_in(a, b)[m])
    &&& forall|m: int|
        0 <= m < found_in(b, a).len() ==> present(found_in(a, b), #[trigger] found_in(b, a)[m])
}

/// `dst` holds a clone of each element of `src`, in the same order.
pub open spec fn clones<T: Clone>(src: Seq<T>, dst: Seq<T>) -> bool {
    &&& src.len() == dst.len()
    &&& forall|i: int| 0 <= i < src.len() ==> cloned(src[i], #[trigger] dst[i])
}

/// The elements of `s` at the positions listed in `idx`.
pub open spec fn at_positions<T>(s: Seq<T>, idx: Seq<usize>) -> Seq<T> {
    idx.map_values(|k: usize| s[k as int])
}

/// Why two key collections could not be partitioned.
#[derive(Debug, Clone, Copy, PartialEq, Eq)]
pub enum CompareError {
    /// An element counted as shared from one side was not counted as shared
    /// from the other: the element type's equality is not symmetric.
    AsymmetricComparison,
}

/// The result of comparing two key collections.
pub struct KeyOrigins<T: Eq + Clone> {
    /// Keys that are only in the first collection
    first_only: Vec<T>,
    /// Keys that are only in the second collection
    second_only: Vec<T>,
    /// Keys that are in both collections
    both: Vec<T>,
}

impl<T: Eq + Clone> KeyOrigins<T> {
    /// The keys only in the first collection.
    pub closed spec fn first_only_view(&self) -> Seq<T> {
        self.first_only@
    }

    /// The keys only in the second collection.
    pub closed spec fn second_only_view(&self) -> Seq<T> {
        self.second_only@
    }

    /// The keys in both collections.
    pub closed spec fn both_view(&self) -> Seq<T> {
        self.both@
    }

    /// The three groups are clones of the partition of `first` and `second`.
    pub open spec fn partitions(&self, first: Seq<T>, second: Seq<T>) -> bool {
        &&& clones(only_in(first, second), self.first_only_view())
        &&& clones(only_in(second, first), self.second_only_view())
        &&& clones(found_in(first, second), self.both_view())
    }

    fn new(first_only: Vec<T>, second_only: Vec<T>, both: Vec<T>) -> (r: Self)
        ensures
            r.first_only_view() == first_only@,
            r.second_only_view() == second_only@,
            r.both_view() == both@,
    {
        KeyOrigins { first_only, second_only, both }
    }

    /// Keys that are only in the first collection.
    pub fn first_only(&self) -> (r: Vec<T>)
        ensures
            clones(self.first_only_view(), r@),
    {
        self.first_only.clone()
    }

    /// Keys that are only in the second collection.
    pub fn second_only(&self) -> (r: Vec<T>)
        ensures
            clones(self.second_only_view(), r@),
    {
        self.second_only.clone()
    }

    /// Keys that are in both collections, in the order of the first.
    pub fn both(&self) -> (r: Vec<T>)
        ensures
            clones(self.both_view(), r@),
    {
        self.both.clone()
    }
}

/// Whether `x` equals some element of `s`.
fn contains_elem<T: PartialEq>(s: &[T], x: &T) -> (r: bool)
    ensures
        T::obeys_eq_spec() ==> r == present(s@, *x),
{
    let mut j: usize = 0;
    while j < s.len()
        invariant
            j <= s.len(),
            T::obeys_eq_spec() ==> forall|k: int| 0 <= k < j ==> !(#[trigger] s@[k]).eq_spec(x),
        decreases s.len() - j,
    {
        if s[j] == *x {
            return true;
        }
        j += 1;
    }
    false
}

/// Whether `x` equals one of the elements of `s` at the positions `idx`.
fn contains_at<T: PartialEq>(s: &[T], idx: &Vec<usize>, x: &T) -> (r: bool)
    requires
        forall|k: int| 0 <= k < idx.len() ==> (#[trigger] idx@[k]) < s.len(),
    ensures
        T::obeys_eq_spec() ==> r == present(at_positions(s@, idx@), *x),
{
    let mut j: usize = 0;
    while j < idx.len()
        invariant
            j <= idx.len(),
            forall|k: int| 0 <= k < idx.len() ==> (#[trigger] idx@[k]) < s.len(),
            T::obeys_eq_spec() ==> forall|k: int|
                0 <= k < j ==> !(#[trigger] at_positions(s@, idx@)[k]).eq_spec(x),
        decreases idx.len() - j,
    {
        assert(at_positions(s@, idx@)[j as int] == s@[idx@[j as int] as int]);
        if s[idx[j]] == *x {
            return true;
        }
        j += 1;
    }
    false
}

/// Splits `first` and `second` into the elements only in `first`, those only
/// in `second` and those in both (in the order of `first`).
///
/// Fails with [`CompareError::AsymmetricComparison`] when some element found
/// in both from one side is not found in both from the other, which a
/// symmetric equality never allows.
///
/// The contract holds for element types whose `==` computes their
/// `eq_spec`; of other types' `==` nothing is known here.
pub fn compare_vectors<T: Eq + Clone>(first: &[T], second: &[T]) -> (r: Result<
    KeyOrigins<T>,
    CompareError,
>)
    ensures
        T::obeys_eq_spec() ==> (r is Ok <==> symmetric(first@, second@)),
        T::obeys_eq_spec() && r is Ok ==> r->Ok_0.partitions(first@, second@),
{
    let mut in_first_only: Vec<T> = Vec::new();
    let mut in_second_only: Vec<T> = Vec::new();
    let mut in_both: Vec<T> = Vec::new();
    // positions in `first` and in `second` of the elements found in both
    let mut shared_first: Vec<usize> = Vec::new();
    let mut shared_second: Vec<usize> = Vec::new();

    let mut i: usize = 0;
    while i < first.len()
        invariant
            i <= first.len(),
            forall|k: int| 0 <= k < shared_first.len() ==> (#[trigger] shared_first@[k]) < i,
            T::obeys_eq_spec() ==> clones(only_in(first@.take(i as int), second@), in_first_only@),
            T::obeys_eq_spec() ==> clones(found_in(first@.take(i as int), second@), in_both@),
            T::obeys_eq_spec() ==> at_positions(first@, shared_first@) == found_in(
                first@.take(i as int),
                second@,
            ),
        decreases first.len() - i,
    {
        let ghost prefix = first@.take(i as int);
        assert(first@.take(i + 1) == prefix.push(first@[i as int]));
        proof {
            prefix.lemma_filter_push(first@[i as int], |x: T| !present(second@, x));
            prefix.lemma_filter_push(first@[i as int], |x: T| present(second@, x));
        }
        let element = first[i].clone();
        if contains_elem(second, &first[i]) {
            in_both.push(element);
            shared_first.push(i);
            assert(at_positions(first@, shared_first@) =~= at_positions(
                first@,
                shared_first@.drop_last(),
            ).push(first@[i as int]));
        } else {
            in_first_only.push(element);
        }
        i += 1;
    }
    assert(first@.take(first.len() as int) == first@);

    let mut j: usize = 0;
    while j < second.len()
        invariant
            j <= second.len(),
            forall|k: int| 0 <= k < shared_second.len() ==> (#[trigger] shared_second@[k]) < j,
            T::obeys_eq_spec() ==> clones(
                only_in(second@.take(j as int), first@),
                in_second_only@,
            ),
            T::obeys_eq_spec() ==> at_positions(second@, shared_second@) == found_in(
                second@.take(j as int),
                first@,
            ),
        decreases second.len() - j,
    {
        let ghost prefix = second@.take(j as int);
        assert(second@.take(j + 1) == prefix.push(second@[j as int]));
        proof {
            prefix.lemma_filter_push(second@[j as int], |x: T| !present(first@, x));
            prefix.lemma_filter_push(second@[j as int], |x: T| present(first@, x));
        }
        if contains_elem(first, &second[j]) {
            shared_second.push(j);
            assert(at_positions(second@, shared_second@) =~= at_positions(
                second@,
                shared_second@.drop_last(),
            ).push(second@[j as int]));
        } else {
            in_second_only.push(second[j].clone());
        }
        j += 1;
    }
    assert(second@.take(second.len() as int) == second@);

    let ghost from_first = found_in(first@, second@);
    let ghost from_second = found_in(second@, first@);
    let mut not_found = false;
    let mut k: usize = 0;
    while k < shared_first.len()
        invariant
            k <= shared_first.len(),
            forall|m: int| 0 <= m < shared_first.len() ==> (#[trigger] shared_first@[m]) < first.len(),
            forall|m: int| 0 <= m < shared_second.len() ==> (#[trigger] shared_second@[m]) < second.len(),
            T::obeys_eq_spec() ==> at_positions(first@, shared_first@) == from_first,
            T::obeys_eq_spec() ==> at_positions(second@, shared_second@) == from_second,
            T::obeys_eq_spec() ==> (!not_found <==> forall|m: int|
                0 <= m < k ==> present(from_second, #[trigger] from_first[m])),
        decreases shared_first.len() - k,
    {
        assert(at_positions(first@, shared_first@)[k as int] == first@[shared_first@[k as int] as int]);
        if !contains_at(second, &shared_second, &first[shared_first[k]]) {
            not_found = true;
        }
        k += 1;
    }
    let mut k: usize = 0;
    while k < shared_second.len()
        invariant
            k <= shared_second.len(),
            forall|m: int| 0 <= m < shared_first.len() ==> (#[trigger] shared_first@[m]) < first.len(),
            forall|m: int| 0 <= m < shared_second.len() ==> (#[trigger] shared_second@[m]) < second.len(),
            T::obeys_eq_spec() ==> at_positions(first@, shared_first@) == from_first,
            T::obeys_eq_spec() ==> at_positions(second@, shared_second@) == from_second,
            T::obeys_eq_spec() ==> (!not_found <==> (forall|m: int|
                0 <= m < from_first.len() ==> present(from_second, #[trigger] from_first[m]))
                && forall|m: int| 0 <= m < k ==> present(from_first, #[trigger] from_second[m])),
        decreases shared_second.len() - k,
    {
        assert(at_positions(second@, shared_second@)[k as int] == second@[shared_second@[k as int] as int]);
        if !contains_at(first, &shared_first, &second[shared_second[k]]) {
            not_found = true;
        }
        k += 1;
    }

    if not_found {
        return Err(CompareError::AsymmetricComparison);
    }
    Ok(KeyOrigins::new(in_first_only, in_second_only, in_both))
}

/// The tokens of `s` between commas, in order. A string without a comma is a
/// single token; an empty string is one empty token.
pub open spec fn comma_tokens(s: Seq<char>) -> Seq<Seq<char>>
    decreases s.len(),
{
    if s.len() == 0 {
        seq![Seq::empty()]
    } else {
        let rest = comma_tokens(s.drop_last());
        if s.last() == ',' {
            rest.push(Seq::empty())
        } else {
            rest.update(rest.len() - 1, rest.last().push(s.last()))
        }
    }
}

proof fn lemma_comma_tokens_nonempty(s: Seq<char>)
    ensures
        comma_tokens(s).len() >= 1,
    decreases s.len(),
{
    if s.len() > 0 {
        lemma_comma_tokens_nonempty(s.drop_last());
    }
}

/// Whether `needle` occurs in `hay` as a run of adjacent characters.
pub open spec fn has_substring(hay: Seq<char>, needle: Seq<char>) -> bool {
    exists|i: int|
        0 <= i && i + needle.len() <= hay.len() && #[trigger] hay.subrange(i, i + needle.len())
            == needle
}

/// Relies on `str::contains` with a `&str` pattern: true exactly when the
/// pattern matches a sub-slice of the string.
#[verifier::external_body]
fn str_contains(hay: &str, needle: &str) -> (r: bool)
    ensures
        r == has_substring(hay@, needle@),
{
    hay.contains(needle)
}

/// Splits an exclusion list at each comma. Tokens are kept as written: no
/// trimming, and empty tokens stay.
pub fn split_exclusions(list: &str) -> (r: Vec<String>)
    ensures
        r.deep_view() == comma_tokens(list@),
{
    let n = list.unicode_len();
    let mut tokens: Vec<String> = Vec::new();
    let mut start: usize = 0;
    let mut i: usize = 0;
    assert(list@.take(0) =~= Seq::<char>::empty());
    assert(tokens.deep_view().push(list@.subrange(0, 0)) =~= seq![Seq::<char>::empty()]);
    while i < n
        invariant
            n == list@.len(),
            start <= i <= n,
            comma_tokens(list@.take(i as int)) == tokens.deep_view().push(
                list@.subrange(start as int, i as int),
            ),
        decreases n - i,
    {
        let ghost before = list@.take(i as int);
        let ghost old_tokens = tokens.deep_view();
        assert(list@.take(i + 1).drop_last() == before);
        assert(list@.take(i + 1).last() == list@[i as int]);
        proof {
            lemma_comma_tokens_nonempty(before);
        }
        if list.get_char(i) == ',' {
            let token = list.substring_char(start, i).to_owned();
            tokens.push(token);
            start = i + 1;
            assert(tokens.deep_view() =~= comma_tokens(before));
            assert(list@.subrange(start as int, i + 1) =~= Seq::<char>::empty());
        } else {
            assert(list@.subrange(start as int, i + 1) =~= list@.subrange(start as int, i as int).push(
                list@[i as int],
            ));
            assert(comma_tokens(list@.take(i + 1)) =~= old_tokens.push(
                list@.subrange(start as int, i + 1),
            ));
        }
        i += 1;
    }
    assert(list@.take(n as int) == list@);
    let last = list.substring_char(start, n).to_owned();
    tokens.push(last);
    tokens
}

/// Whether some token occurs in the dotted form of `key`.
pub open spec fn excluded(tokens: Seq<Seq<char>>, key: Seq<Seq<char>>) -> bool {
    exists|t: int| 0 <= t < tokens.len() && has_substring(dotted(key), #[trigger] tokens[t])
}

/// Whether a key survives the exclusion list `list`.
pub open spec fn survives(list: Seq<char>) -> spec_fn(Seq<Seq<char>>) -> bool {
    |k: Seq<Seq<char>>| !excluded(comma_tokens(list), k)
}

/// The keys that survive the exclusion list, in their order: all of them
/// without a list, else those in whose dotted form no token occurs.
pub open spec fn kept_keys(keys: Seq<Seq<Seq<char>>>, exclude: Option<Seq<char>>) -> Seq<
    Seq<Seq<char>>,
> {
    match exclude {
        None => keys,
        Some(list) => keys.filter(survives(list)),
    }
}

/// The view of an optional exclusion list.
pub open spec fn list_view(blackstr: Option<String>) -> Option<Seq<char>> {
    match blackstr {
        Some(s) => Some(s@),
        None => None,
    }
}

/// A copy of a key path.
pub(crate) fn copy_key(key: &Key) -> (r: Key)
    ensures
        r.deep_view() == key.deep_view(),
{
    let r = key.clone();
    assert(r.deep_view() =~= key.deep_view());
    r
}

/// Whether one of `tokens` occurs in the dotted form of `key`.
fn is_excluded(tokens: &Vec<String>, key: &Key) -> (r: bool)
    ensures
        r == excluded(tokens.deep_view(), key.deep_view()),
{
    let key_str = join_dotted(key);
    let mut t: usize = 0;
    while t < tokens.len()
        invariant
            t <= tokens.len(),
            key_str@ == dotted(key.deep_view()),
            forall|u: int| 0 <= u < t ==> !has_substring(key_str@, #[trigger] tokens.deep_view()[u]),
        decreases tokens.len() - t,
    {
        assert(tokens.deep_view()[t as int] == tokens@[t as int]@);
        if str_contains(key_str.as_str(), tokens[t].as_str()) {
            return true;
        }
        t += 1;
    }
    false
}

/// Drops each key in whose dotted form a token of the comma-separated
/// `blackstr` occurs as a substring, and keeps the others in order. Without
/// `blackstr` every key is kept.
///
/// Matching is on the dotted form, not on whole segments: `key1` excludes
/// `containskey1inside`, and `key2.key3` excludes a key in which `key3`
/// directly follows `key2`. An empty token, as a trailing comma leaves,
/// occurs in every dotted form and so excludes every key.
pub fn filter_keys(keys: &[Key], blackstr: Option<String>) -> (r: Vec<Vec<String>>)
    ensures
        r.deep_view() == kept_keys(keys.deep_view(), list_view(blackstr)),
{
    let mut included_keys: Vec<Key> = Vec::new();
    match blackstr {
        Some(val) => {
            let blacklist = split_exclusions(val.as_str());
            let mut i: usize = 0;
            while i < keys.len()
                invariant
                    i <= keys.len(),
                    blacklist.deep_view() == comma_tokens(val@),
                    included_keys.deep_view() == keys.deep_view().take(i as int).filter(survives(val@)),
                decreases keys.len() - i,
            {
                proof {
                    keys.deep_view().take(i as int).lemma_filter_push(keys.deep_view()[i as int], survives(val@));
                    assert(keys.deep_view().take(i + 1) == keys.deep_view().take(i as int).push(
                        keys.deep_view()[i as int],
                    ));
                }
                assert(keys.deep_view()[i as int] == keys@[i as int].deep_view());
                let drop = is_excluded(&blacklist, &keys[i]);
                assert(drop == !survives(val@)(keys.deep_view()[i as int]));
                if !drop {
                    let copy = copy_key(&keys[i]);
                    let ghost before = included_keys.deep_view();
                    included_keys.push(copy);
                    assert(included_keys.deep_view() =~= before.push(keys.deep_view()[i as int]));
                }
                i += 1;
            }
            assert(keys.deep_view().take(keys.len() as int) == keys.deep_view());
        },
        None => {
            let mut i: usize = 0;
            while i < keys.len()
                invariant
                    i <= keys.len(),
                    included_keys.deep_view() == keys.deep_view().take(i as int),
                decreases keys.len() - i,
            {
                let copy = copy_key(&keys[i]);
                let ghost before = included_keys.deep_view();
                included_keys.push(copy);
                assert(included_keys.deep_view() =~= before.push(keys.deep_view()[i as int]));
                assert(keys.deep_view().take(i + 1) =~= keys.deep_view().take(i as int).push(
                    keys.deep_view()[i as int],
                ));
                i += 1;
            }
            assert(keys.deep_view().take(keys.len() as int) == keys.deep_view());
        },
    }
    included_keys
}


/// With a symmetric equality, each element counted as shared from one side
/// is counted as shared from the other: the partition never fails.
pub proof fn lemma_shared_views_agree<T: PartialEq>(first: Seq<T>, second: Seq<T>)
    requires
        obeys_eq::<T>(),
    ensures
        symmetric(first, second),
{
    reveal(obeys_eq_spec_properties);
    lemma_shared_seen_from_other(first, second);
    lemma_shared_seen_from_other(second, first);
}

proof fn lemma_shared_seen_from_other<T: PartialEq>(a: Seq<T>, b: Seq<T>)
    requires
        forall|x: T, y: T| #[trigger] x.eq_spec(&y) ==> y.eq_spec(&x),
    ensures
        forall|m: int|
            0 <= m < found_in(a, b).len() ==> present(found_in(b, a), #[trigger] found_in(a, b)[m]),
{
    let fa = found_in(a, b);
    let fb = found_in(b, a);
    assert forall|m: int| 0 <= m < fa.len() implies present(fb, #[trigger] fa[m]) by {
        let x = fa[m];
        a.lemma_filter_pred(|x: T| present(b, x), m);
        let j = choose|j: int| 0 <= j < b.len() && #[trigger] b[j].eq_spec(&x);
        assert(fa.contains(x));
        a.lemma_filter_contains_rev(|x: T| present(b, x), x);
        let i = choose|i: int| 0 <= i < a.len() && a[i] == x;
        assert(a[i].eq_spec(&b[j]));
        b.lemma_filter_contains(|y: T| present(a, y), j);
        let k = choose|k: int| 0 <= k < fb.len() && fb[k] == b[j];
        assert(fb[k].eq_spec(&x));
    }
}

/// For duplicate-free inputs under an equality that is `==`: the three
/// groups together hold exactly the elements of both inputs, no element is
/// in two groups, and no group holds an element twice.
pub proof fn lemma_partition_total<T: PartialEq>(first: Seq<T>, second: Seq<T>)
    requires
        obeys_concrete_eq::<T>(),
        first.no_duplicates(),
        second.no_duplicates(),
    ensures
        only_in(first, second).to_set() + found_in(first, second).to_set() + only_in(
            second,
            first,
        ).to_set() == first.to_set() + second.to_set(),
        only_in(first, second).to_set().disjoint(found_in(first, second).to_set()),
        only_in(first, second).to_set().disjoint(only_in(second, first).to_set()),
        found_in(first, second).to_set().disjoint(only_in(second, first).to_set()),
        only_in(first, second).no_duplicates(),
        found_in(first, second).no_duplicates(),
        only_in(second, first).no_duplicates(),
{
    reveal(obeys_concrete_eq);
    let a = first;
    let b = second;
    let not_in_b = |x: T| !present(b, x);
    let in_b = |x: T| present(b, x);
    let not_in_a = |x: T| !present(a, x);
    let fa = found_in(a, b);
    let oa = only_in(a, b);
    let ob = only_in(b, a);
    assert forall|x: T| #[trigger] oa.contains(x) <==> a.contains(x) && !present(b, x) by {
        if oa.contains(x) {
            a.lemma_filter_contains_rev(not_in_b, x);
            let m = choose|m: int| 0 <= m < oa.len() && oa[m] == x;
            a.lemma_filter_pred(not_in_b, m);
        }
        if a.contains(x) && !present(b, x) {
            let i = choose|i: int| 0 <= i < a.len() && a[i] == x;
            a.lemma_filter_contains(not_in_b, i);
        }
    }
    assert forall|x: T| #[trigger] fa.contains(x) <==> a.contains(x) && present(b, x) by {
        if fa.contains(x) {
            a.lemma_filter_contains_rev(in_b, x);
            let m = choose|m: int| 0 <= m < fa.len() && fa[m] == x;
            a.lemma_filter_pred(in_b, m);
        }
        if a.contains(x) && present(b, x) {
            let i = choose|i: int| 0 <= i < a.len() && a[i] == x;
            a.lemma_filter_contains(in_b, i);
        }
    }
    assert forall|x: T| #[trigger] ob.contains(x) <==> b.contains(x) && !present(a, x) by {
        if ob.contains(x) {
            b.lemma_filter_contains_rev(not_in_a, x);
            let m = choose|m: int| 0 <= m < ob.len() && ob[m] == x;
            b.lemma_filter_pred(not_in_a, m);
        }
        if b.contains(x) && !present(a, x) {
            let i = choose|i: int| 0 <= i < b.len() && b[i] == x;
            b.lemma_filter_contains(not_in_a, i);
        }
    }
    assert forall|x: T| present(b, x) <==> #[trigger] b.contains(x) by {
        if present(b, x) {
            let j = choose|j: int| 0 <= j < b.len() && #[trigger] b[j].eq_spec(&x);
            assert(b[j] == x);
        }
        if b.contains(x) {
            let j = choose|j: int| 0 <= j < b.len() && b[j] == x;
            assert(b[j].eq_spec(&x));
        }
    }
    assert forall|x: T| present(a, x) <==> #[trigger] a.contains(x) by {
        if present(a, x) {
            let j = choose|j: int| 0 <= j < a.len() && #[trigger] a[j].eq_spec(&x);
            assert(a[j] == x);
        }
        if a.contains(x) {
            let j = choose|j: int| 0 <= j < a.len() && a[j] == x;
            assert(a[j].eq_spec(&x));
        }
    }
    assert(oa.to_set() + fa.to_set() + ob.to_set() =~= a.to_set() + b.to_set());
    assert(oa.to_set().disjoint(fa.to_set()));
    assert(oa.to_set().disjoint(ob.to_set()));
    assert(fa.to_set().disjoint(ob.to_set()));
    lemma_filter_no_duplicates(a, not_in_b);
    lemma_filter_no_duplicates(a, in_b);
    lemma_filter_no_duplicates(b, not_in_a);
}

/// Filtering keeps a sequence free of duplicates.
proof fn lemma_filter_no_duplicates<T>(s: Seq<T>, pred: spec_fn(T) -> bool)
    requires
        s.no_duplicates(),
    ensures
        s.filter(pred).no_duplicates(),
    decreases s.len(),
{
    reveal(Seq::filter);
    if s.len() > 0 {
        let rest = s.drop_last();
        assert(rest.no_duplicates());
        lemma_filter_no_duplicates(rest, pred);
        if pred(s.last()) {
            assert forall|i: int| 0 <= i < rest.filter(pred).len() implies rest.filter(pred)[i]
                != s.last() by {
                if rest.filter(pred)[i] == s.last() {
                    rest.lemma_filter_contains_rev(pred, s.last());
                }
            }
        }
    }
}


/// Without an exclusion list the filter keeps every key, in order.
pub proof fn lemma_no_list_keeps_all(keys: Seq<Seq<Seq<char>>>)
    ensures
        kept_keys(keys, None) == keys,
{
}

/// When a token of the list occurs in the dotted form of every key, no key
/// is kept.
pub proof fn lemma_all_matched_keys_dropped(keys: Seq<Seq<Seq<char>>>, list: Seq<char>)
    requires
        forall|i: int| 0 <= i < keys.len() ==> excluded(comma_tokens(list), #[trigger] keys[i]),
    ensures
        kept_keys(keys, Some(list)).len() == 0,
{
    assert(keys.all(|k: Seq<Seq<char>>| !survives(list)(k)));
    keys.lemma_all_neg_filter_empty(survives(list));
}

} // verus!
