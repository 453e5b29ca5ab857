//! The deterministic order in which discovered interpreters are reported.
use vstd::prelude::*;
use vstd::relations::*;
use vstd::seq_lib::*;
use vstd::string::*;
use crate::version::{newer, PythonVersion};

verus! {

/// A discovered interpreter: the executable's path and, where the store gave
/// a usable one, its version.
#[derive(Debug)]
pub struct WindowsPython {
    pub path: String,
    pub version: Option<PythonVersion>,
}

/// The mathematical value of a [`WindowsPython`].
pub struct InterpreterView {
    pub path: Seq<char>,
    pub version: Option<PythonVersion>,
}

impl View for WindowsPython {
    type V = InterpreterView;

    open spec fn view(&self) -> InterpreterView {
        InterpreterView { path: self.path@, version: self.version }
    }
}

pub open spec fn views(s: Seq<WindowsPython>) -> Seq<InterpreterView> {
    s.map_values(|e: WindowsPython| e@)
}

/// Lexicographic order on character sequences (a prefix comes first).
pub open spec fn chars_le(a: Seq<char>, b: Seq<char>) -> bool
    decreases a.len(),
{
    if a.len() == 0 {
        true
    } else if b.len() == 0 {
        false
    } else if a[0] != b[0] {
        a[0] < b[0]
    } else {
        chars_le(a.drop_first(), b.drop_first())
    }
}

/// A path separator (either slash).
pub open spec fn is_separator(c: char) -> bool {
    c == '\\' || c == '/'
}

/// The rank of a character when paths are compared part by part: a
/// separator ranks below every other character.
pub open spec fn part_rank(c: char) -> int {
    if is_separator(c) {
        0
    } else {
        c as int + 1
    }
}

/// Lexicographic order of paths by `part_rank`: this compares the parts
/// between separators in turn, a part that is a prefix of another first.
pub open spec fn parts_le(a: Seq<char>, b: Seq<char>) -> bool
    decreases a.len(),
{
    if a.len() == 0 {
        true
    } else if b.len() == 0 {
        false
    } else if part_rank(a[0]) != part_rank(b[0]) {
        part_rank(a[0]) < part_rank(b[0])
    } else {
        parts_le(a.drop_first(), b.drop_first())
    }
}

/// Path order: part by part; paths that are equal part by part (they differ
/// at most in which slash separates them) by character order.
pub open spec fn path_before(a: Seq<char>, b: Seq<char>) -> bool {
    if parts_le(a, b) && parts_le(b, a) {
        chars_le(a, b)
    } else {
        parts_le(a, b)
    }
}

/// `a` may stand before `b`: versioned entries first, newest version first,
/// then by path (`path_before`).
pub open spec fn entry_le(a: InterpreterView, b: InterpreterView) -> bool {
    match (a.version, b.version) {
        (Some(_), None) => true,
        (None, Some(_)) => false,
        (Some(va), Some(vb)) => newer(va, vb) || (va == vb && path_before(a.path, b.path)),
        (None, None) => path_before(a.path, b.path),
    }
}

/// Every entry may stand before each one that follows it.
pub open spec fn ranked(s: Seq<InterpreterView>) -> bool {
    forall|i: int, j: int| 0 <= i < j < s.len() ==> entry_le(#[trigger] s[i], #[trigger] s[j])
}

proof fn lemma_chars_le_reflexive(a: Seq<char>)
    ensures
        chars_le(a, a),
    decreases a.len(),
{
    if a.len() > 0 {
        lemma_chars_le_reflexive(a.drop_first());
    }
}

proof fn lemma_chars_le_antisymmetric(a: Seq<char>, b: Seq<char>)
    requires
        chars_le(a, b),
        chars_le(b, a),
    ensures
        a == b,
    decreases a.len(),
{
    if a.len() == 0 {
        assert(b.len() == 0);
        assert(a =~= b);
    } else {
        lemma_chars_le_antisymmetric(a.drop_first(), b.drop_first());
        assert(a =~= seq![a[0]] + a.drop_first());
        assert(b =~= seq![b[0]] + b.drop_first());
    }
}

proof fn lemma_chars_le_transitive(a: Seq<char>, b: Seq<char>, c: Seq<char>)
    requires
        chars_le(a, b),
        chars_le(b, c),
    ensures
        chars_le(a, c),
    decreases a.len(),
{
    if a.len() > 0 && b.len() > 0 && c.len() > 0 && a[0] == b[0] && b[0] == c[0] {
        lemma_chars_le_transitive(a.drop_first(), b.drop_first(), c.drop_first());
    }
}

proof fn lemma_chars_le_total(a: Seq<char>, b: Seq<char>)
    ensures
        chars_le(a, b) || chars_le(b, a),
    decreases a.len(),
{
    if a.len() > 0 && b.len() > 0 && a[0] == b[0] {
        lemma_chars_le_total(a.drop_first(), b.drop_first());
    }
}

proof fn lemma_parts_le_reflexive(a: Seq<char>)
    ensures
        parts_le(a, a),
    decreases a.len(),
{
    if a.len() > 0 {
        lemma_parts_le_reflexive(a.drop_first());
    }
}

proof fn lemma_parts_le_transitive(a: Seq<char>, b: Seq<char>, c: Seq<char>)
    requires
        parts_le(a, b),
        parts_le(b, c),
    ensures
        parts_le(a, c),
    decreases a.len(),
{
    if a.len() > 0 && b.len() > 0 && c.len() > 0 && part_rank(a[0]) == part_rank(b[0])
        && part_rank(b[0]) == part_rank(c[0]) {
        lemma_parts_le_transitive(a.drop_first(), b.drop_first(), c.drop_first());
    }
}

proof fn lemma_parts_le_total(a: Seq<char>, b: Seq<char>)
    ensures
        parts_le(a, b) || parts_le(b, a),
    decreases a.len(),
{
    if a.len() > 0 && b.len() > 0 && part_rank(a[0]) == part_rank(b[0]) {
        lemma_parts_le_total(a.drop_first(), b.drop_first());
    }
}

proof fn lemma_path_before_reflexive(a: Seq<char>)
    ensures
        path_before(a, a),
{
    lemma_parts_le_reflexive(a);
    lemma_chars_le_reflexive(a);
}

proof fn lemma_path_before_antisymmetric(a: Seq<char>, b: Seq<char>)
    requires
        path_before(a, b),
        path_before(b, a),
    ensures
        a == b,
{
    if parts_le(a, b) && parts_le(b, a) {
        lemma_chars_le_antisymmetric(a, b);
    }
}

proof fn lemma_path_before_transitive(a: Seq<char>, b: Seq<char>, c: Seq<char>)
    requires
        path_before(a, b),
        path_before(b, c),
    ensures
        path_before(a, c),
{
    lemma_parts_le_transitive(a, b, c);
    if parts_le(c, a) {
        lemma_parts_le_transitive(c, a, b);
        lemma_parts_le_transitive(b, c, a);
        lemma_chars_le_transitive(a, b, c);
    }
}

proof fn lemma_path_before_total(a: Seq<char>, b: Seq<char>)
    ensures
        path_before(a, b) || path_before(b, a),
{
    lemma_parts_le_total(a, b);
    lemma_chars_le_total(a, b);
}

/// `entry_le` is a total order on interpreter values.
pub proof fn lemma_entry_le_total_order()
    ensures
        forall|a: InterpreterView| #[trigger] entry_le(a, a),
        forall|a: InterpreterView, b: InterpreterView|
            #[trigger] entry_le(a, b) && #[trigger] entry_le(b, a) ==> a == b,
        forall|a: InterpreterView, b: InterpreterView, c: InterpreterView|
            #[trigger] entry_le(a, b) && #[trigger] entry_le(b, c) ==> entry_le(a, c),
        forall|a: InterpreterView, b: InterpreterView|
            #[trigger] entry_le(a, b) || #[trigger] entry_le(b, a),
{
    assert forall|a: InterpreterView| #[trigger] entry_le(a, a) by {
        lemma_path_before_reflexive(a.path);
    }
    assert forall|a: InterpreterView, b: InterpreterView|
        #[trigger] entry_le(a, b) && #[trigger] entry_le(b, a) implies a == b by {
        if path_before(a.path, b.path) && path_before(b.path, a.path) {
            lemma_path_before_antisymmetric(a.path, b.path);
        }
    }
    assert forall|a: InterpreterView, b: InterpreterView, c: InterpreterView|
        #[trigger] entry_le(a, b) && #[trigger] entry_le(b, c) implies entry_le(a, c) by {
        if path_before(a.path, b.path) && path_before(b.path, c.path) {
            lemma_path_before_transitive(a.path, b.path, c.path);
        }
    }
    assert forall|a: InterpreterView, b: InterpreterView|
        #[trigger] entry_le(a, b) || #[trigger] entry_le(b, a) by {
        lemma_path_before_total(a.path, b.path);
    }
}

/// Two ranked arrangements of the same multiset of interpreters are
/// identical: the ranking does not depend on the order of its input.
pub proof fn lemma_ranking_is_unique(a: Seq<InterpreterView>, b: Seq<InterpreterView>)
    requires
        ranked(a),
        ranked(b),
        a.to_multiset() == b.to_multiset(),
    ensures
        a == b,
{
    lemma_entry_le_total_order();
    let leq = |x: InterpreterView, y: InterpreterView| entry_le(x, y);
    assert(sorted_by(a, leq)) by {
        assert forall|i: int, j: int| 0 <= i < j < a.len() implies #[trigger] leq(a[i], a[j]) by {
            assert(entry_le(a[i], a[j]));
        }
    }
    assert(sorted_by(b, leq)) by {
        assert forall|i: int, j: int| 0 <= i < j < b.len() implies #[trigger] leq(b[i], b[j]) by {
            assert(entry_le(b[i], b[j]));
        }
    }
    assert(total_ordering(leq)) by {
        assert forall|x: InterpreterView| #[trigger] leq(x, x) by {
            assert(entry_le(x, x));
        }
        assert forall|x: InterpreterView, y: InterpreterView|
            #[trigger] leq(x, y) && #[trigger] leq(y, x) implies x == y by {
            assert(entry_le(x, y) && entry_le(y, x));
        }
        assert forall|x: InterpreterView, y: InterpreterView, z: InterpreterView|
            #[trigger] leq(x, y) && #[trigger] leq(y, z) implies leq(x, z) by {
            assert(entry_le(x, y) && entry_le(y, z));
        }
        assert forall|x: InterpreterView, y: InterpreterView|
            #[trigger] leq(x, y) || #[trigger] leq(y, x) by {
            assert(entry_le(x, y) || entry_le(y, x));
        }
    }
    lemma_sorted_unique(a, b, leq);
}

/// Ranking two arrangements of the same interpreters gives the same output:
/// `first` and `second` rank `input` and a shuffle of it, as `rank_pythons`
/// ensures. Taking the shuffle to be a ranked output shows that ranking again
/// changes nothing.
pub proof fn lemma_rank_order_independent(
    input: Seq<InterpreterView>,
    shuffled: Seq<InterpreterView>,
    first: Seq<InterpreterView>,
    second: Seq<InterpreterView>,
)
    requires
        shuffled.to_multiset() == input.to_multiset(),
        ranked(first),
        first.to_multiset() == input.to_multiset(),
        ranked(second),
        second.to_multiset() == shuffled.to_multiset(),
    ensures
        first == second,
{
    lemma_ranking_is_unique(first, second);
}

/// Character by character comparison of two texts.
pub fn text_le(a: &str, b: &str) -> (r: bool)
    ensures
        r == chars_le(a@, b@),
{
    let la = a.unicode_len();
    let lb = b.unicode_len();
    let mut i: usize = 0;
    proof {
        assert(a@.skip(0) =~= a@);
        assert(b@.skip(0) =~= b@);
    }
    while i < la && i < lb
        invariant
            la == a@.len(),
            lb == b@.len(),
            i <= la,
            i <= lb,
            chars_le(a@, b@) == chars_le(a@.skip(i as int), b@.skip(i as int)),
        decreases la - i,
    {
        let ca = a.get_char(i);
        let cb = b.get_char(i);
        proof {
            assert(a@.skip(i as int)[0] == ca);
            assert(b@.skip(i as int)[0] == cb);
        }
        if ca != cb {
            return ca < cb;
        }
        proof {
            assert(a@.skip(i as int).drop_first() =~= a@.skip(i + 1));
            assert(b@.skip(i as int).drop_first() =~= b@.skip(i + 1));
        }
        i = i + 1;
    }
    i == la
}

fn rank_of(c: char) -> (r: u64)
    ensures
        r == part_rank(c),
{
    if c == '\\' || c == '/' {
        0
    } else {
        c as u64 + 1
    }
}

/// Part by part comparison of two paths.
pub fn parts_le_of(a: &str, b: &str) -> (r: bool)
    ensures
        r == parts_le(a@, b@),
{
    let la = a.unicode_len();
    let lb = b.unicode_len();
    let mut i: usize = 0;
    proof {
        assert(a@.skip(0) =~= a@);
        assert(b@.skip(0) =~= b@);
    }
    while i < la && i < lb
        invariant
            la == a@.len(),
            lb == b@.len(),
            i <= la,
            i <= lb,
            parts_le(a@, b@) == parts_le(a@.skip(i as int), b@.skip(i as int)),
        decreases la - i,
    {
        let ra = rank_of(a.get_char(i));
        let rb = rank_of(b.get_char(i));
        if ra != rb {
            return ra < rb;
        }
        proof {
            assert(a@.skip(i as int).drop_first() =~= a@.skip(i + 1));
            assert(b@.skip(i as int).drop_first() =~= b@.skip(i + 1));
        }
        i = i + 1;
    }
    i == la
}

/// Path order: part by part between separators, then character by character.
pub fn path_le(a: &str, b: &str) -> (r: bool)
    ensures
        r == path_before(a@, b@),
{
    let forward = parts_le_of(a, b);
    if forward && parts_le_of(b, a) {
        text_le(a, b)
    } else {
        forward
    }
}

/// Whether `a` may stand before `b` in the ranking.
pub fn precedes(a: &WindowsPython, b: &WindowsPython) -> (r: bool)
    ensures
        r == entry_le(a@, b@),
{
    match (&a.version, &b.version) {
        (Some(_), None) => true,
        (None, Some(_)) => false,
        (Some(va), Some(vb)) => {
            if va.is_newer_than(vb) {
                true
            } else if *va == *vb {
                path_le(a.path.as_str(), b.path.as_str())
            } else {
                false
            }
        },
        (None, None) => path_le(a.path.as_str(), b.path.as_str()),
    }
}

/// Puts interpreters in ranking order: versioned before versionless, newest
/// version first, equal versions and versionless entries by ascending path.
pub fn rank_pythons(pythons: Vec<WindowsPython>) -> (r: Vec<WindowsPython>)
    ensures
        ranked(views(r@)),
        views(r@).to_multiset() == views(pythons@).to_multiset(),
{
    broadcast use group_to_multiset_ensures;
    broadcast use vstd::multiset::group_multiset_axioms;

    let mut input = pythons;
    let mut out: Vec<WindowsPython> = Vec::new();
    proof {
        lemma_entry_le_total_order();
        assert(views(out@) =~= Seq::<InterpreterView>::empty());
    }
    while input.len() > 0
        invariant
            ranked(views(out@)),
            views(out@).to_multiset().add(views(input@).to_multiset()) =~= views(
                pythons@,
            ).to_multiset(),
        decreases input.len(),
    {
        proof {
            lemma_entry_le_total_order();
        }
        let ghost old_input = input@;
        let ghost old_out = views(out@);
        let e = input.pop().unwrap();
        proof {
            assert(views(old_input) =~= views(input@).push(e@));
        }
        let mut k: usize = 0;
        let mut placed = false;
        while k < out.len() && !placed
            invariant
                k <= out.len(),
                views(out@) == old_out,
                forall|j: int| 0 <= j < k ==> entry_le(#[trigger] views(out@)[j], e@),
                placed ==> k < out.len() && entry_le(e@, views(out@)[k as int]),
            decreases out.len() - k + (if placed { 0int } else { 1int }),
        {
            proof {
                lemma_entry_le_total_order();
            }
            if precedes(&e, &out[k]) {
                placed = true;
            } else {
                k = k + 1;
            }
        }
        let ghost ev = e@;
        out.insert(k, e);
        proof {
            let s = views(out@);
            assert(s =~= old_out.insert(k as int, ev));
            assert forall|j: int| k <= j < old_out.len() implies entry_le(ev, #[trigger] old_out[j]) by {
                if j > k {
                    assert(entry_le(old_out[k as int], old_out[j]));
                }
            }
            assert forall|i: int, j: int| 0 <= i < j < s.len() implies entry_le(
                #[trigger] s[i],
                #[trigger] s[j],
            ) by {
                if i < k && j == k {
                } else if i < k && j > k {
                    assert(s[j] == old_out[j - 1]);
                    assert(entry_le(old_out[i], ev));
                } else if i == k {
                    assert(s[j] == old_out[j - 1]);
                } else if i > k {
                    assert(entry_le(old_out[i - 1], old_out[j - 1]));
                } else {
                    assert(entry_le(old_out[i], old_out[j]));
                }
            }
            to_multiset_insert(old_out, k as int, ev);
            to_multiset_build(views(input@), ev);
            assert(s.to_multiset() =~= old_out.to_multiset().insert(ev));
            assert(views(old_input).to_multiset() =~= views(input@).to_multiset().insert(ev));
            assert(s.to_multiset().add(views(input@).to_multiset()) =~= old_out.to_multiset().add(
                views(old_input).to_multiset(),
            ));
        }
    }
    proof {
        assert(views(input@) =~= Seq::<InterpreterView>::empty());
    }
    out
}

} // verus!
