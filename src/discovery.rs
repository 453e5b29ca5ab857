//! Discovery of interpreters from a snapshot of the store's two read scopes.
use vstd::prelude::*;
use vstd::seq_lib::*;
use vstd::string::*;
use windows_result::Error;
use crate::ranking::{rank_pythons, ranked, views, InterpreterView, WindowsPython};
use crate::version::{version_of, PythonVersion};

verus! {

/// The vendor namespace that the launcher reserves; it never names a vendor.
pub const RESERVED_COMPANY: &'static str = "PyLauncher";

/// The values read from one tag.
pub struct TagValues {
    /// `InstallPath\ExecutablePath` as text, or `None` when the child key or
    /// the value is missing or the value is not text.
    pub executable_path: Option<String>,
    /// `SysVersion` as text, or `None` when absent or not text.
    pub sys_version: Option<String>,
}

/// The outcome of opening a tag that its namespace listed.
pub enum TagKey {
    Unopenable(Error),
    Opened(TagValues),
}

/// The outcome of opening a vendor namespace and listing its tags.
pub enum CompanyKey {
    Unopenable,
    Unlistable(Error),
    Listed(Vec<TagKey>),
}

/// One vendor namespace under the vendor root.
pub struct CompanySnapshot {
    pub name: String,
    pub key: CompanyKey,
}

/// The outcome of opening a scope's vendor root and listing its namespaces.
pub enum RootKey {
    Unopenable,
    Unlistable(Error),
    Listed(Vec<CompanySnapshot>),
}

/// The interpreter that a tag's values describe, if it is usable: the
/// executable path is mandatory and non-empty; a version that does not
/// parse is dropped.
pub open spec fn entry_of(values: TagValues) -> Option<InterpreterView> {
    match values.executable_path {
        Some(path) => if path@.len() > 0 {
            Some(
                InterpreterView {
                    path: path@,
                    version: match values.sys_version {
                        Some(text) => version_of(text@),
                        None => None,
                    },
                },
            )
        } else {
            None
        },
        None => None,
    }
}

pub open spec fn option_seq(e: Option<InterpreterView>) -> Seq<InterpreterView> {
    match e {
        Some(v) => seq![v],
        None => Seq::empty(),
    }
}

/// `found` followed by the result of the rest of a scan.
pub open spec fn prepend(found: Seq<InterpreterView>, rest: Result<Seq<InterpreterView>, Error>) -> Result<
    Seq<InterpreterView>,
    Error,
> {
    match rest {
        Ok(more) => Ok(found + more),
        Err(e) => Err(e),
    }
}

/// Scan of a namespace's tags, in listing order; the first tag that cannot
/// be opened aborts the scan.
pub open spec fn tags_scan(tags: Seq<TagKey>) -> Result<Seq<InterpreterView>, Error>
    decreases tags.len(),
{
    if tags.len() == 0 {
        Ok(Seq::empty())
    } else {
        match tags[0] {
            TagKey::Unopenable(e) => Err(e),
            TagKey::Opened(values) => prepend(option_seq(entry_of(values)), tags_scan(tags.drop_first())),
        }
    }
}

/// Scan of one vendor namespace: the reserved name and namespaces that cannot
/// be opened give nothing; a failed listing aborts the scan.
pub open spec fn company_scan(c: CompanySnapshot) -> Result<Seq<InterpreterView>, Error> {
    if c.name@ == RESERVED_COMPANY@ {
        Ok(Seq::empty())
    } else {
        match c.key {
            CompanyKey::Unopenable => Ok(Seq::empty()),
            CompanyKey::Unlistable(e) => Err(e),
            CompanyKey::Listed(tags) => tags_scan(tags@),
        }
    }
}

pub open spec fn companies_scan(cs: Seq<CompanySnapshot>) -> Result<Seq<InterpreterView>, Error>
    decreases cs.len(),
{
    if cs.len() == 0 {
        Ok(Seq::empty())
    } else {
        match company_scan(cs[0]) {
            Err(e) => Err(e),
            Ok(found) => prepend(found, companies_scan(cs.drop_first())),
        }
    }
}

/// Scan of one scope: a vendor root that cannot be opened gives nothing; a
/// failed listing aborts the scan.
pub open spec fn root_scan(root: RootKey) -> Result<Seq<InterpreterView>, Error> {
    match root {
        RootKey::Unopenable => Ok(Seq::empty()),
        RootKey::Unlistable(e) => Err(e),
        RootKey::Listed(cs) => companies_scan(cs@),
    }
}

pub open spec fn roots_scan(roots: Seq<RootKey>) -> Result<Seq<InterpreterView>, Error>
    decreases roots.len(),
{
    if roots.len() == 0 {
        Ok(Seq::empty())
    } else {
        match root_scan(roots[0]) {
            Err(e) => Err(e),
            Ok(found) => prepend(found, roots_scan(roots.drop_first())),
        }
    }
}

/// `r` is the executable counterpart of the scan result `s`.
pub open spec fn scanned_as(
    r: Result<Vec<WindowsPython>, Error>,
    s: Result<Seq<InterpreterView>, Error>,
) -> bool {
    match (r, s) {
        (Ok(v), Ok(found)) => views(v@) == found,
        (Err(e1), Err(e2)) => e1 == e2,
        _ => false,
    }
}

proof fn lemma_prepend_assoc(
    a: Seq<InterpreterView>,
    b: Seq<InterpreterView>,
    rest: Result<Seq<InterpreterView>, Error>,
)
    ensures
        prepend(a, prepend(b, rest)) == prepend(a + b, rest),
{
    if let Ok(more) = rest {
        assert(a + (b + more) =~= (a + b) + more);
    }
}

/// A namespace with the reserved name contributes nothing to a scan,
/// whatever it holds.
pub proof fn lemma_reserved_company_ignored(c: CompanySnapshot)
    requires
        c.name@ == RESERVED_COMPANY@,
    ensures
        company_scan(c) == Ok::<Seq<InterpreterView>, Error>(Seq::empty()),
{
}

proof fn lemma_companies_congruent(cs1: Seq<CompanySnapshot>, cs2: Seq<CompanySnapshot>)
    requires
        cs1.len() == cs2.len(),
        forall|i: int| 0 <= i < cs1.len() ==> company_scan(#[trigger] cs1[i]) == company_scan(cs2[i]),
    ensures
        companies_scan(cs1) == companies_scan(cs2),
    decreases cs1.len(),
{
    if cs1.len() > 0 {
        assert(company_scan(cs1[0]) == company_scan(cs2[0]));
        assert forall|i: int| 0 <= i < cs1.drop_first().len() implies company_scan(
            #[trigger] cs1.drop_first()[i],
        ) == company_scan(cs2.drop_first()[i]) by {
            assert(company_scan(cs1[i + 1]) == company_scan(cs2[i + 1]));
        }
        lemma_companies_congruent(cs1.drop_first(), cs2.drop_first());
    }
}

proof fn lemma_roots_congruent(r1: Seq<RootKey>, r2: Seq<RootKey>)
    requires
        r1.len() == r2.len(),
        forall|i: int| 0 <= i < r1.len() ==> root_scan(#[trigger] r1[i]) == root_scan(r2[i]),
    ensures
        roots_scan(r1) == roots_scan(r2),
    decreases r1.len(),
{
    if r1.len() > 0 {
        assert(root_scan(r1[0]) == root_scan(r2[0]));
        assert forall|i: int| 0 <= i < r1.drop_first().len() implies root_scan(
            #[trigger] r1.drop_first()[i],
        ) == root_scan(r2.drop_first()[i]) by {
            assert(root_scan(r1[i + 1]) == root_scan(r2[i + 1]));
        }
        lemma_roots_congruent(r1.drop_first(), r2.drop_first());
    }
}

/// Two namespaces that are the same up to what a reserved one holds.
pub open spec fn same_up_to_reserved(c1: CompanySnapshot, c2: CompanySnapshot) -> bool {
    &&& c1.name@ == c2.name@
    &&& c1.name@ == RESERVED_COMPANY@ || c1.key == c2.key
}

/// Two scopes that are the same up to what their reserved namespaces hold.
pub open spec fn root_same_up_to_reserved(r1: RootKey, r2: RootKey) -> bool {
    match (r1, r2) {
        (RootKey::Listed(cs1), RootKey::Listed(cs2)) => cs1@.len() == cs2@.len() && forall|i: int|
            0 <= i < cs1@.len() ==> same_up_to_reserved(#[trigger] cs1@[i], cs2@[i]),
        _ => r1 == r2,
    }
}

/// Whatever a reserved namespace holds, even keys that cannot be read, the
/// whole scan comes out the same: nothing in its result comes from there.
pub proof fn lemma_reserved_contents_ignored(roots1: Seq<RootKey>, roots2: Seq<RootKey>)
    requires
        roots1.len() == roots2.len(),
        forall|i: int| 0 <= i < roots1.len() ==> root_same_up_to_reserved(#[trigger] roots1[i], roots2[i]),
    ensures
        roots_scan(roots1) == roots_scan(roots2),
{
    assert forall|i: int| 0 <= i < roots1.len() implies root_scan(#[trigger] roots1[i]) == root_scan(
        roots2[i],
    ) by {
        assert(root_same_up_to_reserved(roots1[i], roots2[i]));
        if let (RootKey::Listed(cs1), RootKey::Listed(cs2)) = (roots1[i], roots2[i]) {
            assert forall|k: int| 0 <= k < cs1@.len() implies company_scan(#[trigger] cs1@[k])
                == company_scan(cs2@[k]) by {
                assert(same_up_to_reserved(cs1@[k], cs2@[k]));
            }
            lemma_companies_congruent(cs1@, cs2@);
        }
    }
    lemma_roots_congruent(roots1, roots2);
}

proof fn lemma_unusable_tag_removed(tags: Seq<TagKey>, i: int)
    requires
        0 <= i < tags.len(),
        tags[i] is Opened,
        entry_of(tags[i]->Opened_0) is None,
    ensures
        tags_scan(tags) == tags_scan(tags.remove(i)),
    decreases i,
{
    if i == 0 {
        assert(tags.remove(0) =~= tags.drop_first());
        assert(Seq::<InterpreterView>::empty() + Seq::<InterpreterView>::empty() =~= Seq::<
            InterpreterView,
        >::empty());
        if let Ok(more) = tags_scan(tags.drop_first()) {
            assert(Seq::<InterpreterView>::empty() + more =~= more);
        }
    } else {
        assert(tags.remove(i).drop_first() =~= tags.drop_first().remove(i - 1));
        assert(tags.remove(i)[0] == tags[0]);
        lemma_unusable_tag_removed(tags.drop_first(), i - 1);
    }
}

/// `roots2` is `roots1` with tag `i` of namespace `c` in scope `r` taken out.
pub open spec fn tag_taken_out(
    roots1: Seq<RootKey>,
    roots2: Seq<RootKey>,
    r: int,
    c: int,
    i: int,
) -> bool {
    &&& roots1.len() == roots2.len()
    &&& 0 <= r < roots1.len()
    &&& forall|j: int| 0 <= j < roots1.len() && j != r ==> #[trigger] roots1[j] == roots2[j]
    &&& roots1[r] matches RootKey::Listed(cs1)
    &&& roots2[r] matches RootKey::Listed(cs2)
    &&& cs1@.len() == cs2@.len()
    &&& 0 <= c < cs1@.len()
    &&& forall|k: int| 0 <= k < cs1@.len() && k != c ==> #[trigger] cs1@[k] == cs2@[k]
    &&& cs1@[c].name@ == cs2@[c].name@
    &&& cs1@[c].key matches CompanyKey::Listed(t1)
    &&& cs2@[c].key matches CompanyKey::Listed(t2)
    &&& 0 <= i < t1@.len()
    &&& t2@ == t1@.remove(i)
}

/// A tag whose executable path is missing is left out without failing the
/// scan: the whole scan comes out as if the tag were not there.
pub proof fn lemma_unusable_tag_ignored(
    roots1: Seq<RootKey>,
    roots2: Seq<RootKey>,
    r: int,
    c: int,
    i: int,
)
    requires
        tag_taken_out(roots1, roots2, r, c, i),
        tag_at(roots1, r, c, i) is Opened,
        tag_at(roots1, r, c, i)->Opened_0.executable_path is None,
    ensures
        roots_scan(roots1) == roots_scan(roots2),
{
    let cs1 = roots1[r]->Listed_0@;
    let cs2 = roots2[r]->Listed_0@;
    let t1 = cs1[c].key->Listed_0@;
    let t2 = cs2[c].key->Listed_0@;
    lemma_unusable_tag_removed(t1, i);
    assert(company_scan(cs1[c]) == company_scan(cs2[c]));
    assert forall|k: int| 0 <= k < cs1.len() implies company_scan(#[trigger] cs1[k]) == company_scan(
        cs2[k],
    ) by {
        if k != c {
            assert(cs1[k] == cs2[k]);
        }
    }
    lemma_companies_congruent(cs1, cs2);
    assert forall|j: int| 0 <= j < roots1.len() implies root_scan(#[trigger] roots1[j]) == root_scan(
        roots2[j],
    ) by {
        if j != r {
            assert(roots1[j] == roots2[j]);
        }
    }
    lemma_roots_congruent(roots1, roots2);
}

proof fn lemma_tags_scan_contains(tags: Seq<TagKey>, i: int, e: InterpreterView)
    requires
        tags_scan(tags) is Ok,
        0 <= i < tags.len(),
        tags[i] is Opened,
        entry_of(tags[i]->Opened_0) == Some(e),
    ensures
        tags_scan(tags)->Ok_0.contains(e),
    decreases i,
{
    let opt = option_seq(match tags[0] {
        TagKey::Opened(v) => entry_of(v),
        TagKey::Unopenable(_) => None,
    });
    if i == 0 {
        let more = tags_scan(tags.drop_first())->Ok_0;
        assert((opt + more)[0] == e);
    } else {
        lemma_tags_scan_contains(tags.drop_first(), i - 1, e);
        let more = tags_scan(tags.drop_first())->Ok_0;
        let k = choose|k: int| 0 <= k < more.len() && more[k] == e;
        assert((opt + more)[opt.len() + k] == e);
    }
}

proof fn lemma_companies_scan_contains(cs: Seq<CompanySnapshot>, c: int, e: InterpreterView)
    requires
        companies_scan(cs) is Ok,
        0 <= c < cs.len(),
        company_scan(cs[c]) is Ok,
        company_scan(cs[c])->Ok_0.contains(e),
    ensures
        companies_scan(cs)->Ok_0.contains(e),
    decreases c,
{
    let head = company_scan(cs[0])->Ok_0;
    let more = companies_scan(cs.drop_first())->Ok_0;
    if c == 0 {
        let k = choose|k: int| 0 <= k < head.len() && head[k] == e;
        assert((head + more)[k] == e);
    } else {
        lemma_companies_scan_contains(cs.drop_first(), c - 1, e);
        let k = choose|k: int| 0 <= k < more.len() && more[k] == e;
        assert((head + more)[head.len() + k] == e);
    }
}

proof fn lemma_roots_scan_contains(roots: Seq<RootKey>, r: int, e: InterpreterView)
    requires
        roots_scan(roots) is Ok,
        0 <= r < roots.len(),
        root_scan(roots[r]) is Ok,
        root_scan(roots[r])->Ok_0.contains(e),
    ensures
        roots_scan(roots)->Ok_0.contains(e),
    decreases r,
{
    let head = root_scan(roots[0])->Ok_0;
    let more = roots_scan(roots.drop_first())->Ok_0;
    if r == 0 {
        let k = choose|k: int| 0 <= k < head.len() && head[k] == e;
        assert((head + more)[k] == e);
    } else {
        lemma_roots_scan_contains(roots.drop_first(), r - 1, e);
        let k = choose|k: int| 0 <= k < more.len() && more[k] == e;
        assert((head + more)[head.len() + k] == e);
    }
}

/// A usable tag whose version text does not parse is kept, without a
/// version, in the result of a scan that succeeds.
pub proof fn lemma_unparsable_version_kept(roots: Seq<RootKey>, r: int, c: int, i: int)
    requires
        roots_scan(roots) is Ok,
        0 <= r < roots.len(),
        roots[r] is Listed,
        0 <= c < roots[r]->Listed_0@.len(),
        roots[r]->Listed_0@[c].name@ != RESERVED_COMPANY@,
        roots[r]->Listed_0@[c].key is Listed,
        0 <= i < roots[r]->Listed_0@[c].key->Listed_0@.len(),
        tag_at(roots, r, c, i) is Opened,
        tag_at(roots, r, c, i)->Opened_0.executable_path is Some,
        tag_at(roots, r, c, i)->Opened_0.executable_path->Some_0@.len() > 0,
        tag_at(roots, r, c, i)->Opened_0.sys_version is Some,
        version_of(tag_at(roots, r, c, i)->Opened_0.sys_version->Some_0@) is None,
    ensures
        roots_scan(roots)->Ok_0.contains(
            InterpreterView {
                path: tag_at(roots, r, c, i)->Opened_0.executable_path->Some_0@,
                version: None,
            },
        ),
{
    let cs = roots[r]->Listed_0@;
    let tags = cs[c].key->Listed_0@;
    let values = tags[i]->Opened_0;
    let e = InterpreterView { path: values.executable_path->Some_0@, version: None };
    lemma_scan_parts_ok(roots, r, c);
    lemma_tags_scan_contains(tags, i, e);
    lemma_companies_scan_contains(cs, c, e);
    lemma_roots_scan_contains(roots, r, e);
}

/// Tag `i` of namespace `c` in scope `r`.
pub open spec fn tag_at(roots: Seq<RootKey>, r: int, c: int, i: int) -> TagKey {
    roots[r]->Listed_0@[c].key->Listed_0@[i]
}

proof fn lemma_scan_parts_ok(roots: Seq<RootKey>, r: int, c: int)
    requires
        roots_scan(roots) is Ok,
        0 <= r < roots.len(),
        roots[r] is Listed,
        0 <= c < roots[r]->Listed_0@.len(),
    ensures
        root_scan(roots[r]) is Ok,
        companies_scan(roots[r]->Listed_0@) is Ok,
        company_scan(roots[r]->Listed_0@[c]) is Ok,
    decreases r,
{
    if r == 0 {
        lemma_companies_ok(roots[0]->Listed_0@, c);
    } else {
        lemma_scan_parts_ok(roots.drop_first(), r - 1, c);
    }
}

proof fn lemma_companies_ok(cs: Seq<CompanySnapshot>, c: int)
    requires
        companies_scan(cs) is Ok,
        0 <= c < cs.len(),
    ensures
        company_scan(cs[c]) is Ok,
    decreases c,
{
    if c > 0 {
        lemma_companies_ok(cs.drop_first(), c - 1);
    }
}

/// The per-item results of a scan level, joined in order; the first error
/// ends it.
pub open spec fn joined(rs: Seq<Result<Seq<InterpreterView>, Error>>) -> Result<
    Seq<InterpreterView>,
    Error,
>
    decreases rs.len(),
{
    if rs.len() == 0 {
        Ok(Seq::empty())
    } else {
        match rs[0] {
            Err(e) => Err(e),
            Ok(found) => prepend(found, joined(rs.drop_first())),
        }
    }
}

pub open spec fn tag_result(t: TagKey) -> Result<Seq<InterpreterView>, Error> {
    match t {
        TagKey::Unopenable(e) => Err(e),
        TagKey::Opened(values) => Ok(option_seq(entry_of(values))),
    }
}

proof fn lemma_tags_joined(t: Seq<TagKey>)
    ensures
        tags_scan(t) == joined(t.map_values(|x: TagKey| tag_result(x))),
    decreases t.len(),
{
    if t.len() > 0 {
        assert(t.map_values(|x: TagKey| tag_result(x)).drop_first() =~= t.drop_first().map_values(
            |x: TagKey| tag_result(x),
        ));
        lemma_tags_joined(t.drop_first());
    }
}

proof fn lemma_companies_joined(cs: Seq<CompanySnapshot>)
    ensures
        companies_scan(cs) == joined(cs.map_values(|c: CompanySnapshot| company_scan(c))),
    decreases cs.len(),
{
    if cs.len() > 0 {
        assert(cs.map_values(|c: CompanySnapshot| company_scan(c)).drop_first()
            =~= cs.drop_first().map_values(|c: CompanySnapshot| company_scan(c)));
        lemma_companies_joined(cs.drop_first());
    }
}

proof fn lemma_roots_joined(rs: Seq<RootKey>)
    ensures
        roots_scan(rs) == joined(rs.map_values(|r: RootKey| root_scan(r))),
    decreases rs.len(),
{
    if rs.len() > 0 {
        assert(rs.map_values(|r: RootKey| root_scan(r)).drop_first() =~= rs.drop_first().map_values(
            |r: RootKey| root_scan(r),
        ));
        lemma_roots_joined(rs.drop_first());
    }
}

proof fn lemma_joined_parts_ok(rs: Seq<Result<Seq<InterpreterView>, Error>>, k: int)
    requires
        joined(rs) is Ok,
        0 <= k < rs.len(),
    ensures
        rs[k] is Ok,
    decreases k,
{
    if k > 0 {
        lemma_joined_parts_ok(rs.drop_first(), k - 1);
    }
}

/// Joined results whose parts hold the same interpreters hold the same
/// interpreters.
proof fn lemma_joined_same_multiset(
    rs1: Seq<Result<Seq<InterpreterView>, Error>>,
    rs2: Seq<Result<Seq<InterpreterView>, Error>>,
)
    requires
        rs1.len() == rs2.len(),
        forall|k: int|
            0 <= k < rs1.len() ==> (#[trigger] rs1[k] is Ok && rs2[k] is Ok && rs1[k]->Ok_0.to_multiset()
                == rs2[k]->Ok_0.to_multiset()),
    ensures
        joined(rs1) is Ok,
        joined(rs2) is Ok,
        joined(rs1)->Ok_0.to_multiset() == joined(rs2)->Ok_0.to_multiset(),
    decreases rs1.len(),
{
    if rs1.len() > 0 {
        assert(rs1[0] is Ok && rs2[0] is Ok);
        assert forall|k: int| 0 <= k < rs1.drop_first().len() implies (
        #[trigger] rs1.drop_first()[k] is Ok && rs2.drop_first()[k] is Ok
            && rs1.drop_first()[k]->Ok_0.to_multiset() == rs2.drop_first()[k]->Ok_0.to_multiset()) by {
            assert(rs1[k + 1] is Ok);
        }
        lemma_joined_same_multiset(rs1.drop_first(), rs2.drop_first());
        let a = rs1[0]->Ok_0;
        let b = rs2[0]->Ok_0;
        let x = joined(rs1.drop_first())->Ok_0;
        let y = joined(rs2.drop_first())->Ok_0;
        lemma_multiset_commutative(a, x);
        lemma_multiset_commutative(b, y);
    }
}

pub open spec fn swap_next<A>(s: Seq<A>, i: int) -> Seq<A> {
    s.update(i, s[i + 1]).update(i + 1, s[i])
}

proof fn lemma_joined_swap(rs: Seq<Result<Seq<InterpreterView>, Error>>, i: int)
    requires
        0 <= i && i + 1 < rs.len(),
        joined(rs) is Ok,
    ensures
        joined(swap_next(rs, i)) is Ok,
        joined(swap_next(rs, i))->Ok_0.to_multiset() == joined(rs)->Ok_0.to_multiset(),
    decreases i,
{
    broadcast use vstd::multiset::group_multiset_axioms;

    let sw = swap_next(rs, i);
    if i == 0 {
        lemma_joined_parts_ok(rs, 0);
        lemma_joined_parts_ok(rs, 1);
        let a = rs[0]->Ok_0;
        let b = rs[1]->Ok_0;
        let rest = rs.drop_first().drop_first();
        assert(sw.drop_first().drop_first() =~= rest);
        assert(sw.drop_first()[0] == rs[0]);
        assert(rs.drop_first()[0] == rs[1]);
        let r = joined(rest)->Ok_0;
        lemma_multiset_commutative(a, b + r);
        lemma_multiset_commutative(b, r);
        lemma_multiset_commutative(b, a + r);
        lemma_multiset_commutative(a, r);
        assert(joined(rs)->Ok_0 == a + (b + r));
        assert(joined(sw)->Ok_0 == b + (a + r));
        assert(a.to_multiset().add(b.to_multiset().add(r.to_multiset())) =~= b.to_multiset().add(
            a.to_multiset().add(r.to_multiset()),
        ));
    } else {
        lemma_joined_parts_ok(rs, 0);
        assert(sw.drop_first() =~= swap_next(rs.drop_first(), i - 1));
        assert(sw[0] == rs[0]);
        lemma_joined_swap(rs.drop_first(), i - 1);
        let a = rs[0]->Ok_0;
        lemma_multiset_commutative(a, joined(rs.drop_first())->Ok_0);
        lemma_multiset_commutative(a, joined(sw.drop_first())->Ok_0);
    }
}

/// `roots2` is `roots1` with namespaces `k` and `k + 1` of scope `r` listed
/// in the other order.
pub open spec fn companies_swapped(roots1: Seq<RootKey>, roots2: Seq<RootKey>, r: int, k: int) -> bool {
    &&& roots1.len() == roots2.len()
    &&& 0 <= r < roots1.len()
    &&& forall|j: int| 0 <= j < roots1.len() && j != r ==> #[trigger] roots1[j] == roots2[j]
    &&& roots1[r] is Listed
    &&& roots2[r] is Listed
    &&& 0 <= k && k + 1 < roots1[r]->Listed_0@.len()
    &&& roots2[r]->Listed_0@ == swap_next(roots1[r]->Listed_0@, k)
}

/// `roots2` is `roots1` with tags `i` and `i + 1` of namespace `c` in scope
/// `r` listed in the other order.
pub open spec fn tags_swapped(
    roots1: Seq<RootKey>,
    roots2: Seq<RootKey>,
    r: int,
    c: int,
    i: int,
) -> bool {
    &&& roots1.len() == roots2.len()
    &&& 0 <= r < roots1.len()
    &&& forall|j: int| 0 <= j < roots1.len() && j != r ==> #[trigger] roots1[j] == roots2[j]
    &&& roots1[r] is Listed
    &&& roots2[r] is Listed
    &&& roots1[r]->Listed_0@.len() == roots2[r]->Listed_0@.len()
    &&& 0 <= c < roots1[r]->Listed_0@.len()
    &&& forall|k: int|
        0 <= k < roots1[r]->Listed_0@.len() && k != c ==> #[trigger] roots1[r]->Listed_0@[k]
            == roots2[r]->Listed_0@[k]
    &&& roots1[r]->Listed_0@[c].name@ == roots2[r]->Listed_0@[c].name@
    &&& roots1[r]->Listed_0@[c].key is Listed
    &&& roots2[r]->Listed_0@[c].key is Listed
    &&& 0 <= i && i + 1 < roots1[r]->Listed_0@[c].key->Listed_0@.len()
    &&& roots2[r]->Listed_0@[c].key->Listed_0@ == swap_next(
        roots1[r]->Listed_0@[c].key->Listed_0@,
        i,
    )
}

/// Scopes equal but for scope `r`, whose scan succeeds with the same
/// interpreters in both, scan to the same interpreters.
proof fn lemma_roots_one_changed(roots1: Seq<RootKey>, roots2: Seq<RootKey>, r: int)
    requires
        roots1.len() == roots2.len(),
        0 <= r < roots1.len(),
        forall|j: int| 0 <= j < roots1.len() && j != r ==> #[trigger] roots1[j] == roots2[j],
        roots_scan(roots1) is Ok,
        root_scan(roots2[r]) is Ok,
        root_scan(roots1[r])->Ok_0.to_multiset() == root_scan(roots2[r])->Ok_0.to_multiset(),
    ensures
        roots_scan(roots2) is Ok,
        roots_scan(roots1)->Ok_0.to_multiset() == roots_scan(roots2)->Ok_0.to_multiset(),
{
    let m1 = roots1.map_values(|x: RootKey| root_scan(x));
    let m2 = roots2.map_values(|x: RootKey| root_scan(x));
    lemma_roots_joined(roots1);
    lemma_roots_joined(roots2);
    assert forall|k: int| 0 <= k < m1.len() implies (#[trigger] m1[k] is Ok && m2[k] is Ok
        && m1[k]->Ok_0.to_multiset() == m2[k]->Ok_0.to_multiset()) by {
        lemma_joined_parts_ok(m1, k);
        if k != r {
            assert(roots1[k] == roots2[k]);
        }
    }
    lemma_joined_same_multiset(m1, m2);
}

/// Listing two neighbouring namespaces in the other order changes nothing
/// but the order in which the scan meets interpreters: a scan that succeeds
/// still succeeds, with the same interpreters, so the ranked result is the
/// same (see `lemma_rank_order_independent`).
pub proof fn lemma_namespace_order_irrelevant(
    roots1: Seq<RootKey>,
    roots2: Seq<RootKey>,
    r: int,
    k: int,
)
    requires
        companies_swapped(roots1, roots2, r, k),
        roots_scan(roots1) is Ok,
    ensures
        roots_scan(roots2) is Ok,
        roots_scan(roots1)->Ok_0.to_multiset() == roots_scan(roots2)->Ok_0.to_multiset(),
{
    let cs1 = roots1[r]->Listed_0@;
    let cs2 = roots2[r]->Listed_0@;
    let m1 = cs1.map_values(|c: CompanySnapshot| company_scan(c));
    lemma_roots_joined(roots1);
    lemma_joined_parts_ok(roots1.map_values(|x: RootKey| root_scan(x)), r);
    lemma_companies_joined(cs1);
    lemma_companies_joined(cs2);
    assert(cs2.map_values(|c: CompanySnapshot| company_scan(c)) =~= swap_next(m1, k));
    lemma_joined_swap(m1, k);
    lemma_roots_one_changed(roots1, roots2, r);
}

/// Listing two neighbouring tags in the other order changes nothing but the
/// order in which the scan meets interpreters: a scan that succeeds still
/// succeeds, with the same interpreters, so the ranked result is the same
/// (see `lemma_rank_order_independent`).
pub proof fn lemma_tag_order_irrelevant(
    roots1: Seq<RootKey>,
    roots2: Seq<RootKey>,
    r: int,
    c: int,
    i: int,
)
    requires
        tags_swapped(roots1, roots2, r, c, i),
        roots_scan(roots1) is Ok,
    ensures
        roots_scan(roots2) is Ok,
        roots_scan(roots1)->Ok_0.to_multiset() == roots_scan(roots2)->Ok_0.to_multiset(),
{
    let cs1 = roots1[r]->Listed_0@;
    let cs2 = roots2[r]->Listed_0@;
    let t1 = cs1[c].key->Listed_0@;
    let t2 = cs2[c].key->Listed_0@;
    lemma_roots_joined(roots1);
    lemma_joined_parts_ok(roots1.map_values(|x: RootKey| root_scan(x)), r);
    let n1 = cs1.map_values(|x: CompanySnapshot| company_scan(x));
    let n2 = cs2.map_values(|x: CompanySnapshot| company_scan(x));
    lemma_companies_joined(cs1);
    lemma_companies_joined(cs2);
    lemma_joined_parts_ok(n1, c);
    if cs1[c].name@ != RESERVED_COMPANY@ {
        let m1 = t1.map_values(|x: TagKey| tag_result(x));
        lemma_tags_joined(t1);
        lemma_tags_joined(t2);
        assert(t2.map_values(|x: TagKey| tag_result(x)) =~= swap_next(m1, i));
        lemma_joined_swap(m1, i);
    }
    assert forall|k: int| 0 <= k < n1.len() implies (#[trigger] n1[k] is Ok && n2[k] is Ok
        && n1[k]->Ok_0.to_multiset() == n2[k]->Ok_0.to_multiset()) by {
        lemma_joined_parts_ok(n1, k);
        if k != c {
            assert(cs1[k] == cs2[k]);
        }
    }
    lemma_joined_same_multiset(n1, n2);
    lemma_roots_one_changed(roots1, roots2, r);
}

/// Reads one tag's values: `None` when the executable path is missing or
/// empty; a version that does not parse leaves the interpreter versionless.
pub fn read_registry_entry(values: TagValues) -> (r: Option<WindowsPython>)
    ensures
        match r {
            Some(p) => entry_of(values) == Some(p@),
            None => entry_of(values) is None,
        },
{
    let TagValues { executable_path, sys_version } = values;
    let path = match executable_path {
        Some(path) => path,
        None => return None,
    };
    if path.as_str().unicode_len() == 0 {
        return None;
    }
    let version: Option<PythonVersion> = match &sys_version {
        Some(text) => PythonVersion::parse(text.as_str()),
        None => None,
    };
    Some(WindowsPython { path, version })
}

fn scan_tags(tags: Vec<TagKey>) -> (r: Result<Vec<WindowsPython>, Error>)
    ensures
        scanned_as(r, tags_scan(tags@)),
{
    let mut rest = tags;
    let mut found: Vec<WindowsPython> = Vec::new();
    proof {
        assert(views(found@) =~= Seq::<InterpreterView>::empty());
        assert(views(found@) + Seq::<InterpreterView>::empty() =~= views(found@));
    }
    while rest.len() > 0
        invariant
            tags_scan(tags@) == prepend(views(found@), tags_scan(rest@)),
        decreases rest.len(),
    {
        let ghost before = rest@;
        let ghost found_before = views(found@);
        let t = rest.remove(0);
        proof {
            assert(rest@ =~= before.drop_first());
        }
        match t {
            TagKey::Unopenable(e) => {
                return Err(e);
            },
            TagKey::Opened(values) => {
                let ghost vs = values;
                let entry = read_registry_entry(values);
                match entry {
                    Some(p) => {
                        found.push(p);
                        proof {
                            assert(views(found@) =~= found_before + option_seq(entry_of(vs)));
                        }
                    },
                    None => {
                        proof {
                            assert(views(found@) =~= found_before + option_seq(entry_of(vs)));
                        }
                    },
                }
                proof {
                    lemma_prepend_assoc(found_before, option_seq(entry_of(vs)), tags_scan(rest@));
                }
            },
        }
    }
    proof {
        assert(views(found@) + Seq::<InterpreterView>::empty() =~= views(found@));
    }
    Ok(found)
}

fn is_reserved_company(name: &String) -> (r: bool)
    ensures
        r == (name@ == RESERVED_COMPANY@),
{
    let reserved = String::from_str(RESERVED_COMPANY);
    *name == reserved
}

fn scan_company(c: CompanySnapshot) -> (r: Result<Vec<WindowsPython>, Error>)
    ensures
        scanned_as(r, company_scan(c)),
{
    if is_reserved_company(&c.name) {
        proof {
            assert(views(Seq::<WindowsPython>::empty()) =~= Seq::<InterpreterView>::empty());
        }
        return Ok(Vec::new());
    }
    match c.key {
        CompanyKey::Unopenable => {
            proof {
                assert(views(Seq::<WindowsPython>::empty()) =~= Seq::<InterpreterView>::empty());
            }
            Ok(Vec::new())
        },
        CompanyKey::Unlistable(e) => Err(e),
        CompanyKey::Listed(tags) => scan_tags(tags),
    }
}

fn scan_companies(companies: Vec<CompanySnapshot>) -> (r: Result<Vec<WindowsPython>, Error>)
    ensures
        scanned_as(r, companies_scan(companies@)),
{
    let mut rest = companies;
    let mut found: Vec<WindowsPython> = Vec::new();
    proof {
        assert(views(found@) =~= Seq::<InterpreterView>::empty());
        assert(views(found@) + Seq::<InterpreterView>::empty() =~= views(found@));
    }
    while rest.len() > 0
        invariant
            companies_scan(companies@) == prepend(views(found@), companies_scan(rest@)),
        decreases rest.len(),
    {
        let ghost before = rest@;
        let ghost found_before = views(found@);
        let c = rest.remove(0);
        proof {
            assert(rest@ =~= before.drop_first());
        }
        match scan_company(c) {
            Err(e) => {
                return Err(e);
            },
            Ok(more) => {
                let mut more = more;
                let ghost more_views = views(more@);
                found.append(&mut more);
                proof {
                    assert(views(found@) =~= found_before + more_views);
                    lemma_prepend_assoc(found_before, more_views, companies_scan(rest@));
                }
            },
        }
    }
    proof {
        assert(views(found@) + Seq::<InterpreterView>::empty() =~= views(found@));
    }
    Ok(found)
}

fn scan_root(root: RootKey) -> (r: Result<Vec<WindowsPython>, Error>)
    ensures
        scanned_as(r, root_scan(root)),
{
    match root {
        RootKey::Unopenable => {
            proof {
                assert(views(Seq::<WindowsPython>::empty()) =~= Seq::<InterpreterView>::empty());
            }
            Ok(Vec::new())
        },
        RootKey::Unlistable(e) => Err(e),
        RootKey::Listed(companies) => scan_companies(companies),
    }
}

/// Finds every usable interpreter under the given scopes (in the store: the
/// current user's, then the machine's) and ranks them. The first listing or
/// tag opening that fails aborts the whole scan with its error.
pub fn registry_pythons(roots: Vec<RootKey>) -> (r: Result<Vec<WindowsPython>, Error>)
    ensures
        match roots_scan(roots@) {
            Ok(found) => r matches Ok(v) && ranked(views(v@)) && views(v@).to_multiset()
                == found.to_multiset(),
            Err(e) => r == Err::<Vec<WindowsPython>, Error>(e),
        },
{
    let mut rest = roots;
    let mut found: Vec<WindowsPython> = Vec::new();
    proof {
        assert(views(found@) =~= Seq::<InterpreterView>::empty());
        assert(views(found@) + Seq::<InterpreterView>::empty() =~= views(found@));
    }
    while rest.len() > 0
        invariant
            roots_scan(roots@) == prepend(views(found@), roots_scan(rest@)),
        decreases rest.len(),
    {
        let ghost before = rest@;
        let ghost found_before = views(found@);
        let root = rest.remove(0);
        proof {
            assert(rest@ =~= before.drop_first());
        }
        match scan_root(root) {
            Err(e) => {
                return Err(e);
            },
            Ok(more) => {
                let mut more = more;
                let ghost more_views = views(more@);
                found.append(&mut more);
                proof {
                    assert(views(found@) =~= found_before + more_views);
                    lemma_prepend_assoc(found_before, more_views, roots_scan(rest@));
                }
            },
        }
    }
    proof {
        assert(views(found@) + Seq::<InterpreterView>::empty() =~= views(found@));
    }
    Ok(rank_pythons(found))
}

} // verus!
