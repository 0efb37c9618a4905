//! Hierarchical aggregation of tagged quantity observations: grouping by
//! an ordered list of key extractors into a pre-ordered, lexicographically
//! sorted list of per-group sums, with a derived free-capacity metric.

use vstd::prelude::*;
use vstd::slice::slice_index_get;
use vstd::string::StrSliceExecFns;
use crate::qty::{
    Qty, QVal, QtyCmp, qval_add, qval_zero, qval_lt, qval_sub, lemma_qval_add_assoc,
    lemma_qval_add_comm, lemma_qval_add_zero,
};

verus! {

/// Where an observation was taken; any field may be unknown.
#[derive(Clone, Debug)]
pub struct Location {
    pub node_name: Option<String>,
    pub namespace: Option<String>,
    pub pod_name: Option<String>,
    pub container_name: Option<String>,
}

pub ghost struct LocationModel {
    pub node_name: Option<Seq<char>>,
    pub namespace: Option<Seq<char>>,
    pub pod_name: Option<Seq<char>>,
    pub container_name: Option<Seq<char>>,
}

impl View for Location {
    type V = LocationModel;

    open spec fn view(&self) -> LocationModel {
        LocationModel {
            node_name: match self.node_name {
                Some(s) => Some(s@),
                None => None,
            },
            namespace: match self.namespace {
                Some(s) => Some(s@),
                None => None,
            },
            pod_name: match self.pod_name {
                Some(s) => Some(s@),
                None => None,
            },
            container_name: match self.container_name {
                Some(s) => Some(s@),
                None => None,
            },
        }
    }
}

impl Default for Location {
    /// A location with every field unknown.
    fn default() -> (r: Self)
        ensures
            r@.node_name is None,
            r@.namespace is None,
            r@.pod_name is None,
            r@.container_name is None,
    {
        Location { node_name: None, namespace: None, pod_name: None, container_name: None }
    }
}

/// How an observed quantity is classified.
#[derive(Clone, Copy, Debug, PartialEq, Eq, Structural)]
pub enum ResourceUsage {
    Limit,
    Requested,
    Allocatable,
}

/// One tagged quantity observation.
#[derive(Debug)]
pub struct Resource {
    pub kind: String,
    pub quantity: Qty,
    pub location: Location,
    pub usage: ResourceUsage,
}

pub ghost struct ResourceModel {
    pub kind: Seq<char>,
    pub qty: QVal,
    pub location: LocationModel,
    pub usage: ResourceUsage,
}

impl View for Resource {
    type V = ResourceModel;

    open spec fn view(&self) -> ResourceModel {
        ResourceModel {
            kind: self.kind@,
            qty: self.quantity@,
            location: self.location@,
            usage: self.usage,
        }
    }
}

/// Per-group sums, one field per usage kind.
pub struct QtyOfUsage {
    pub limit: Qty,
    pub requested: Qty,
    pub allocatable: Qty,
}

pub ghost struct AccModel {
    pub limit: QVal,
    pub requested: QVal,
    pub allocatable: QVal,
}

impl View for QtyOfUsage {
    type V = AccModel;

    open spec fn view(&self) -> AccModel {
        AccModel { limit: self.limit@, requested: self.requested@, allocatable: self.allocatable@ }
    }
}

impl Default for QtyOfUsage {
    /// All three sums start at the additive identity.
    fn default() -> (r: Self)
        ensures
            r@.limit == qval_zero(),
            r@.requested == qval_zero(),
            r@.allocatable == qval_zero(),
    {
        QtyOfUsage {
            limit: Qty::default(),
            requested: Qty::default(),
            allocatable: Qty::default(),
        }
    }
}

impl QtyOfUsage {
    /// Allocatable minus the larger of limit and requested, floored at
    /// zero: when usage reaches or exceeds allocatable the free capacity
    /// is the zero quantity, never a negative one.
    pub fn calc_free(&self) -> (r: Qty)
        ensures
            ({
                let used = if qval_lt(self@.requested, self@.limit) {
                    self@.limit
                } else {
                    self@.requested
                };
                if qval_lt(used, self@.allocatable) {
                    r@ == qval_sub(self@.allocatable, used)
                } else {
                    r@ == qval_zero()
                }
            }),
    {
        let total_used = if let QtyCmp::Greater = self.limit.compare(&self.requested) {
            &self.limit
        } else {
            &self.requested
        };
        if let QtyCmp::Greater = self.allocatable.compare(total_used) {
            self.allocatable.sub(total_used)
        } else {
            Qty::default()
        }
    }
}

/// The observation views of a sequence of borrowed resources.
pub open spec fn models_of(s: Seq<&Resource>) -> Seq<ResourceModel> {
    Seq::new(s.len(), |i: int| s[i]@)
}

/// The observation views of a sequence of owned resources.
pub open spec fn models_direct(s: Seq<Resource>) -> Seq<ResourceModel> {
    Seq::new(s.len(), |i: int| s[i]@)
}

/// The views of a sequence of strings.
pub open spec fn views_of(s: Seq<String>) -> Seq<Seq<char>> {
    Seq::new(s.len(), |i: int| s[i]@)
}

/// Exact sum of the quantities of the observations with usage kind `u`,
/// in sequence order.
pub open spec fn sum_usage(s: Seq<ResourceModel>, u: ResourceUsage) -> QVal
    decreases s.len(),
{
    if s.len() == 0 {
        qval_zero()
    } else {
        let rest = sum_usage(s.drop_last(), u);
        if s.last().usage == u {
            qval_add(rest, s.last().qty)
        } else {
            rest
        }
    }
}

/// The three per-kind sums of a group.
pub open spec fn acc_of(s: Seq<ResourceModel>) -> AccModel {
    AccModel {
        limit: sum_usage(s, ResourceUsage::Limit),
        requested: sum_usage(s, ResourceUsage::Requested),
        allocatable: sum_usage(s, ResourceUsage::Allocatable),
    }
}

/// Routes every observation into the accumulator field matching its usage
/// kind, summing exactly.
pub fn sum_by_usage(rsrcs: &[&Resource]) -> (out: QtyOfUsage)
    ensures
        out@ == acc_of(models_of(rsrcs@)),
{
    let ghost ms = models_of(rsrcs@);
    let mut acc = QtyOfUsage::default();
    let mut i: usize = 0;
    while i < rsrcs.len()
        invariant
            i <= rsrcs.len(),
            ms == models_of(rsrcs@),
            acc@ == acc_of(ms.take(i as int)),
        decreases rsrcs.len() - i,
    {
        let v: &&Resource = slice_index_get(rsrcs, i);
        proof {
            assert(ms.take(i + 1).drop_last() =~= ms.take(i as int));
            assert(ms.take(i + 1).last() == (*v)@);
        }
        match &v.usage {
            ResourceUsage::Limit => {
                acc.limit = acc.limit.add(&v.quantity);
            },
            ResourceUsage::Requested => {
                acc.requested = acc.requested.add(&v.quantity);
            },
            ResourceUsage::Allocatable => {
                acc.allocatable = acc.allocatable.add(&v.quantity);
            },
        }
        i = i + 1;
    }
    proof {
        assert(ms.take(rsrcs@.len() as int) =~= ms);
    }
    acc
}

/// A grouping dimension: a total function from an observation to its
/// label for that dimension.
#[derive(Clone, Copy, Debug, PartialEq, Eq, Structural)]
pub enum GroupBy {
    Kind,
    NodeName,
}

/// The label an extractor assigns to an observation; a missing tag reads
/// as the empty label, so extraction is total.
pub open spec fn key_of(g: GroupBy, r: ResourceModel) -> Seq<char> {
    match g {
        GroupBy::Kind => r.kind,
        GroupBy::NodeName => match r.location.node_name {
            Some(n) => n,
            None => Seq::empty(),
        },
    }
}

/// The resource kind of an observation.
pub fn extract_kind(e: &Resource) -> (r: String)
    ensures
        r@ == key_of(GroupBy::Kind, e@),
{
    e.kind.clone()
}

/// The node name of an observation, or the empty label when unknown.
pub fn extract_node_name(e: &Resource) -> (r: String)
    ensures
        r@ == key_of(GroupBy::NodeName, e@),
{
    match &e.location.node_name {
        Some(s) => s.clone(),
        None => String::new(),
    }
}

impl GroupBy {
    /// Applies the extractor this dimension stands for.
    pub fn extract(&self, e: &Resource) -> (r: String)
        ensures
            r@ == key_of(*self, e@),
    {
        match self {
            GroupBy::Kind => extract_kind(e),
            GroupBy::NodeName => extract_node_name(e),
        }
    }
}

/// Strict lexicographic order on labels, by character code.
pub open spec fn lex_lt(a: Seq<char>, b: Seq<char>) -> bool
    decreases a.len(),
{
    if b.len() == 0 {
        false
    } else if a.len() == 0 {
        true
    } else if a.first() != b.first() {
        a.first() < b.first()
    } else {
        lex_lt(a.drop_first(), b.drop_first())
    }
}

/// Sorted insertion of a label, keeping it out if already present.
pub open spec fn insert_key(ks: Seq<Seq<char>>, k: Seq<char>) -> Seq<Seq<char>>
    decreases ks.len(),
{
    if ks.len() == 0 {
        seq![k]
    } else if ks.first() == k {
        ks
    } else if lex_lt(k, ks.first()) {
        seq![k] + ks
    } else {
        seq![ks.first()] + insert_key(ks.drop_first(), k)
    }
}

/// The distinct labels of the observations under `g`, in lexicographic
/// order.
pub open spec fn keys_of(s: Seq<ResourceModel>, g: GroupBy) -> Seq<Seq<char>>
    decreases s.len(),
{
    if s.len() == 0 {
        Seq::empty()
    } else {
        insert_key(keys_of(s.drop_last(), g), key_of(g, s.last()))
    }
}

/// The observations whose label under `g` is `k`, in sequence order.
pub open spec fn filter_key(s: Seq<ResourceModel>, g: GroupBy, k: Seq<char>) -> Seq<ResourceModel>
    decreases s.len(),
{
    if s.len() == 0 {
        Seq::empty()
    } else {
        let rest = filter_key(s.drop_last(), g, k);
        if key_of(g, s.last()) == k {
            rest.push(s.last())
        } else {
            rest
        }
    }
}

/// One aggregate row: a key path and the sums of its group.
pub ghost struct RowModel {
    pub path: Seq<Seq<char>>,
    pub acc: AccModel,
}

/// The rows a list of labels produces at one depth: for each label in
/// order, the row of its partition, then the partition's own subtree,
/// depth first.
pub open spec fn rows_from(
    ks: Seq<Seq<char>>,
    s: Seq<ResourceModel>,
    prefix: Seq<Seq<char>>,
    fs: Seq<GroupBy>,
    d: int,
) -> Seq<RowModel>
    decreases fs.len() - d, ks.len(),
{
    if d < 0 || d >= fs.len() || ks.len() == 0 {
        Seq::empty()
    } else {
        let k = ks.first();
        let grp = filter_key(s, fs[d], k);
        let path = prefix.push(k);
        seq![RowModel { path: path, acc: acc_of(grp) }] + rows_model(grp, path, fs, d + 1)
            + rows_from(ks.drop_first(), s, prefix, fs, d)
    }
}

/// The aggregate rows of `s` below `prefix`, using the extractors from
/// depth `d` on: parent rows immediately before their children, siblings
/// in lexicographic label order.
pub open spec fn rows_model(
    s: Seq<ResourceModel>,
    prefix: Seq<Seq<char>>,
    fs: Seq<GroupBy>,
    d: int,
) -> Seq<RowModel>
    decreases fs.len() - d, keys_of(s, fs[d]).len() + 1,
{
    if d < 0 || d >= fs.len() {
        Seq::empty()
    } else {
        rows_from(keys_of(s, fs[d]), s, prefix, fs, d)
    }
}

/// The row views of an aggregate result.
pub open spec fn rows_of(v: Seq<(Vec<String>, QtyOfUsage)>) -> Seq<RowModel> {
    Seq::new(v.len(), |i: int| RowModel { path: views_of(v[i].0@), acc: v[i].1@ })
}

proof fn lemma_models_of_push(s: Seq<&Resource>, e: &Resource)
    ensures
        models_of(s.push(e)) == models_of(s).push(e@),
{
    assert(models_of(s.push(e)) =~= models_of(s).push(e@));
}

proof fn lemma_models_direct_take(s: Seq<Resource>, i: int)
    requires
        0 <= i < s.len(),
    ensures
        models_direct(s.take(i + 1)) == models_direct(s.take(i)).push(s[i]@),
{
    assert(models_direct(s.take(i + 1)) =~= models_direct(s.take(i)).push(s[i]@));
}

proof fn lemma_views_of_push(s: Seq<String>, k: String)
    ensures
        views_of(s.push(k)) == views_of(s).push(k@),
{
    assert(views_of(s.push(k)) =~= views_of(s).push(k@));
}

pub proof fn lemma_lex_irrefl(a: Seq<char>)
    ensures
        !lex_lt(a, a),
    decreases a.len(),
{
    if a.len() > 0 {
        lemma_lex_irrefl(a.drop_first());
    }
}

pub proof fn lemma_lex_total(a: Seq<char>, b: Seq<char>)
    requires
        a != b,
    ensures
        lex_lt(a, b) || lex_lt(b, a),
    decreases a.len(),
{
    if a.len() == 0 && b.len() == 0 {
        assert(a =~= b);
    } else if a.len() > 0 && b.len() > 0 && a.first() == b.first() {
        if a.drop_first() == b.drop_first() {
            assert(a =~= seq![a.first()] + a.drop_first());
            assert(b =~= seq![b.first()] + b.drop_first());
        } else {
            lemma_lex_total(a.drop_first(), b.drop_first());
        }
    }
}

proof fn lemma_insert_key_split(ks: Seq<Seq<char>>, k: Seq<char>, i: int)
    requires
        0 <= i <= ks.len(),
        forall|j: int| 0 <= j < i ==> lex_lt(ks[j], k),
    ensures
        insert_key(ks, k) == ks.take(i) + insert_key(ks.skip(i), k),
    decreases i,
{
    if i == 0 {
        assert(ks.skip(0) =~= ks);
        assert(ks.take(0) + insert_key(ks, k) =~= insert_key(ks, k));
    } else {
        assert(lex_lt(ks[0], k));
        lemma_lex_irrefl(k);
        if ks.first() == k {
            assert(lex_lt(k, k));
        }
        if lex_lt(k, ks.first()) {
            lemma_lex_asym(ks[0], k);
        }
        let rest = ks.drop_first();
        assert(forall|j: int| 0 <= j < i - 1 ==> lex_lt(rest[j], k));
        lemma_insert_key_split(rest, k, i - 1);
        assert(rest.take(i - 1) =~= ks.subrange(1, i));
        assert(rest.skip(i - 1) =~= ks.skip(i));
        assert(seq![ks.first()] + (ks.subrange(1, i) + insert_key(ks.skip(i), k)) =~= ks.take(i)
            + insert_key(ks.skip(i), k));
    }
}

pub proof fn lemma_lex_asym(a: Seq<char>, b: Seq<char>)
    requires
        lex_lt(a, b),
    ensures
        !lex_lt(b, a),
    decreases a.len(),
{
    if a.len() > 0 && b.len() > 0 && a.first() == b.first() {
        lemma_lex_asym(a.drop_first(), b.drop_first());
    }
}

pub proof fn lemma_lex_trans(a: Seq<char>, b: Seq<char>, c: Seq<char>)
    requires
        lex_lt(a, b),
        lex_lt(b, c),
    ensures
        lex_lt(a, c),
    decreases a.len() + b.len() + c.len(),
{
    if a.len() == 0 {
    } else {
        let af = a.first();
        let bf = b.first();
        let cf = c.first();
        if af == bf && bf == cf {
            lemma_lex_trans(a.drop_first(), b.drop_first(), c.drop_first());
        }
    }
}

/// Labels in strictly increasing lexicographic order; such a list holds
/// no label twice.
pub open spec fn key_sorted(ks: Seq<Seq<char>>) -> bool {
    forall|i: int, j: int| 0 <= i < j < ks.len() ==> #[trigger] lex_lt(ks[i], ks[j])
}

proof fn lemma_cons_contains(x: Seq<char>, ys: Seq<Seq<char>>, k: Seq<char>)
    ensures
        (seq![x] + ys).contains(k) <==> k == x || ys.contains(k),
{
    let c = seq![x] + ys;
    if c.contains(k) {
        let i = choose|i: int| 0 <= i < c.len() && c[i] == k;
        if i > 0 {
            assert(ys[i - 1] == k);
        }
    }
    if ys.contains(k) {
        let i = choose|i: int| 0 <= i < ys.len() && ys[i] == k;
        assert(c[i + 1] == k);
    }
    if k == x {
        assert(c[0] == k);
    }
}

proof fn lemma_insert_key_contains(ks: Seq<Seq<char>>, k2: Seq<char>, k: Seq<char>)
    ensures
        insert_key(ks, k2).contains(k) <==> ks.contains(k) || k == k2,
    decreases ks.len(),
{
    if ks.len() == 0 {
        lemma_cons_contains(k2, Seq::empty(), k);
        assert(seq![k2] + Seq::<Seq<char>>::empty() =~= seq![k2]);
        assert(insert_key(ks, k2) =~= seq![k2]);
    } else if ks.first() == k2 {
        if k == k2 {
            assert(ks[0] == k);
        }
    } else if lex_lt(k2, ks.first()) {
        lemma_cons_contains(k2, ks, k);
    } else {
        let rest = ks.drop_first();
        lemma_insert_key_contains(rest, k2, k);
        lemma_cons_contains(ks.first(), insert_key(rest, k2), k);
        lemma_cons_contains(ks.first(), rest, k);
        assert(seq![ks.first()] + rest =~= ks);
    }
}

proof fn lemma_insert_key_sorted(ks: Seq<Seq<char>>, k: Seq<char>)
    requires
        key_sorted(ks),
    ensures
        key_sorted(insert_key(ks, k)),
    decreases ks.len(),
{
    if ks.len() == 0 {
    } else if ks.first() == k {
    } else if lex_lt(k, ks.first()) {
        let new = seq![k] + ks;
        assert forall|i: int, j: int| 0 <= i < j < new.len() implies #[trigger] lex_lt(
            new[i],
            new[j],
        ) by {
            if i == 0 {
                if j > 1 {
                    assert(lex_lt(ks[0], ks[j - 1]));
                    lemma_lex_trans(k, ks[0], ks[j - 1]);
                }
            } else {
                assert(lex_lt(ks[i - 1], ks[j - 1]));
            }
        };
    } else {
        lemma_lex_total(k, ks.first());
        let rest = ks.drop_first();
        assert forall|i: int, j: int| 0 <= i < j < rest.len() implies #[trigger] lex_lt(
            rest[i],
            rest[j],
        ) by {
            assert(lex_lt(ks[i + 1], ks[j + 1]));
        };
        lemma_insert_key_sorted(rest, k);
        let ins = insert_key(rest, k);
        let new = seq![ks.first()] + ins;
        assert forall|i: int, j: int| 0 <= i < j < new.len() implies #[trigger] lex_lt(
            new[i],
            new[j],
        ) by {
            if i == 0 {
                let e = ins[j - 1];
                assert(ins.contains(e));
                lemma_insert_key_contains(rest, k, e);
                if rest.contains(e) {
                    let m = choose|m: int| 0 <= m < rest.len() && rest[m] == e;
                    assert(lex_lt(ks[0], ks[m + 1]));
                } else {
                    assert(e == k);
                }
            } else {
                assert(lex_lt(ins[i - 1], ins[j - 1]));
            }
        };
    }
}

proof fn lemma_insert_key_present(ks: Seq<Seq<char>>, k: Seq<char>)
    requires
        key_sorted(ks),
        ks.contains(k),
    ensures
        insert_key(ks, k) == ks,
    decreases ks.len(),
{
    if ks.first() == k {
    } else {
        let rest = ks.drop_first();
        lemma_cons_contains(ks.first(), rest, k);
        assert(seq![ks.first()] + rest =~= ks);
        assert(rest.contains(k));
        let m = choose|m: int| 0 <= m < rest.len() && rest[m] == k;
        assert(lex_lt(ks[0], ks[m + 1]));
        lemma_lex_asym(ks.first(), k);
        assert forall|i: int, j: int| 0 <= i < j < rest.len() implies #[trigger] lex_lt(
            rest[i],
            rest[j],
        ) by {
            assert(lex_lt(ks[i + 1], ks[j + 1]));
        };
        lemma_insert_key_present(rest, k);
    }
}

/// All labels the observations actually carry are listed, in order.
pub proof fn lemma_keys_of_sorted(s: Seq<ResourceModel>, g: GroupBy)
    ensures
        key_sorted(keys_of(s, g)),
    decreases s.len(),
{
    if s.len() > 0 {
        lemma_keys_of_sorted(s.drop_last(), g);
        lemma_insert_key_sorted(keys_of(s.drop_last(), g), key_of(g, s.last()));
    }
}

proof fn lemma_filter_key_absent(s: Seq<ResourceModel>, g: GroupBy, k: Seq<char>)
    requires
        !keys_of(s, g).contains(k),
    ensures
        filter_key(s, g, k).len() == 0,
    decreases s.len(),
{
    if s.len() > 0 {
        lemma_insert_key_contains(keys_of(s.drop_last(), g), key_of(g, s.last()), k);
        lemma_filter_key_absent(s.drop_last(), g, k);
    }
}

/// The field of an accumulator belonging to one usage kind.
pub open spec fn acc_field(a: AccModel, u: ResourceUsage) -> QVal {
    match u {
        ResourceUsage::Limit => a.limit,
        ResourceUsage::Requested => a.requested,
        ResourceUsage::Allocatable => a.allocatable,
    }
}

/// The sum, over a list of labels, of each label's partition sum for the
/// usage kind `u`.
pub open spec fn ksum(
    ks: Seq<Seq<char>>,
    s: Seq<ResourceModel>,
    g: GroupBy,
    u: ResourceUsage,
) -> QVal
    decreases ks.len(),
{
    if ks.len() == 0 {
        qval_zero()
    } else {
        qval_add(
            sum_usage(filter_key(s, g, ks.first()), u),
            ksum(ks.drop_first(), s, g, u),
        )
    }
}

proof fn lemma_ksum_push(
    ks: Seq<Seq<char>>,
    s: Seq<ResourceModel>,
    g: GroupBy,
    u: ResourceUsage,
    r: ResourceModel,
)
    requires
        key_sorted(ks),
    ensures
        ksum(ks, s.push(r), g, u) == (if ks.contains(key_of(g, r)) {
            if r.usage == u {
                qval_add(ksum(ks, s, g, u), r.qty)
            } else {
                ksum(ks, s, g, u)
            }
        } else {
            ksum(ks, s, g, u)
        }),
    decreases ks.len(),
{
    let kr = key_of(g, r);
    if ks.len() == 0 {
    } else {
        let k0 = ks.first();
        let rest = ks.drop_first();
        assert(s.push(r).drop_last() =~= s);
        assert forall|i: int, j: int| 0 <= i < j < rest.len() implies #[trigger] lex_lt(
            rest[i],
            rest[j],
        ) by {
            assert(lex_lt(ks[i + 1], ks[j + 1]));
        };
        lemma_ksum_push(rest, s, g, u, r);
        lemma_cons_contains(k0, rest, kr);
        assert(seq![k0] + rest =~= ks);
        let f0 = filter_key(s, g, k0);
        let s0 = sum_usage(f0, u);
        if kr == k0 {
            assert(filter_key(s.push(r), g, k0) == f0.push(r));
            assert(f0.push(r).drop_last() =~= f0);
            if rest.contains(k0) {
                let m = choose|m: int| 0 <= m < rest.len() && rest[m] == k0;
                assert(lex_lt(ks[0], ks[m + 1]));
                lemma_lex_irrefl(k0);
            }
            assert(!rest.contains(kr));
            if r.usage == u {
                let rr = ksum(rest, s, g, u);
                lemma_qval_add_assoc(s0, r.qty, rr);
                lemma_qval_add_comm(r.qty, rr);
                lemma_qval_add_assoc(s0, rr, r.qty);
                assert(qval_add(qval_add(s0, r.qty), rr) == qval_add(qval_add(s0, rr), r.qty));
            }
        } else {
            assert(filter_key(s.push(r), g, k0) == f0);
            if rest.contains(kr) && r.usage == u {
                let rr = ksum(rest, s, g, u);
                lemma_qval_add_assoc(s0, rr, r.qty);
            }
        }
    }
}

proof fn lemma_ksum_insert(
    ks: Seq<Seq<char>>,
    s: Seq<ResourceModel>,
    g: GroupBy,
    u: ResourceUsage,
    k: Seq<char>,
)
    requires
        key_sorted(ks),
        !ks.contains(k),
        filter_key(s, g, k).len() == 0,
    ensures
        ksum(insert_key(ks, k), s, g, u) == ksum(ks, s, g, u),
    decreases ks.len(),
{
    assert(filter_key(s, g, k) =~= Seq::<ResourceModel>::empty());
    assert(sum_usage(filter_key(s, g, k), u) == qval_zero());
    if ks.len() == 0 {
        assert(insert_key(ks, k) =~= seq![k]);
        assert(seq![k].drop_first() =~= Seq::<Seq<char>>::empty());
        assert(seq![k].first() == k);
        assert(sum_usage(filter_key(s, g, seq![k].first()), u) == qval_zero());
        assert(ksum(seq![k].drop_first(), s, g, u) == qval_zero());
        assert(ksum(seq![k], s, g, u) == qval_add(qval_zero(), qval_zero()));
        lemma_qval_add_zero(qval_zero());
    } else if ks.first() == k {
        assert(ks[0] == k);
    } else if lex_lt(k, ks.first()) {
        let new = seq![k] + ks;
        assert(new.first() == k);
        assert(new.drop_first() =~= ks);
        assert(ksum(new, s, g, u) == qval_add(qval_zero(), ksum(ks, s, g, u)));
        lemma_qval_add_zero(ksum(ks, s, g, u));
    } else {
        let rest = ks.drop_first();
        lemma_cons_contains(ks.first(), rest, k);
        assert(seq![ks.first()] + rest =~= ks);
        assert forall|i: int, j: int| 0 <= i < j < rest.len() implies #[trigger] lex_lt(
            rest[i],
            rest[j],
        ) by {
            assert(lex_lt(ks[i + 1], ks[j + 1]));
        };
        lemma_ksum_insert(rest, s, g, u, k);
        let new = seq![ks.first()] + insert_key(rest, k);
        assert(new.first() == ks.first());
        assert(new.drop_first() =~= insert_key(rest, k));
    }
}

/// Partitioning preserves sums: for each usage kind, the per-label
/// partition sums together equal the plain sum over all observations —
/// nothing is lost and nothing is counted twice.
pub proof fn lemma_partition_sum(s: Seq<ResourceModel>, g: GroupBy, u: ResourceUsage)
    ensures
        ksum(keys_of(s, g), s, g, u) == sum_usage(s, u),
    decreases s.len(),
{
    if s.len() > 0 {
        let s0 = s.drop_last();
        let r = s.last();
        let k = key_of(g, r);
        let ks0 = keys_of(s0, g);
        lemma_partition_sum(s0, g, u);
        lemma_keys_of_sorted(s0, g);
        assert(s0.push(r) =~= s);
        if ks0.contains(k) {
            lemma_insert_key_present(ks0, k);
            lemma_ksum_push(ks0, s0, g, u, r);
        } else {
            lemma_filter_key_absent(s0, g, k);
            lemma_insert_key_sorted(ks0, k);
            lemma_insert_key_contains(ks0, k, k);
            lemma_ksum_push(insert_key(ks0, k), s0, g, u, r);
            lemma_ksum_insert(ks0, s0, g, u, k);
        }
    }
}

/// Sum of one usage-kind field over the rows whose path has the given
/// length.
pub open spec fn level_sum(rows: Seq<RowModel>, plen: int, u: ResourceUsage) -> QVal
    decreases rows.len(),
{
    if rows.len() == 0 {
        qval_zero()
    } else {
        let rest = level_sum(rows.drop_first(), plen, u);
        if rows.first().path.len() == plen {
            qval_add(acc_field(rows.first().acc, u), rest)
        } else {
            rest
        }
    }
}

proof fn lemma_level_sum_concat(x: Seq<RowModel>, y: Seq<RowModel>, plen: int, u: ResourceUsage)
    ensures
        level_sum(x + y, plen, u) == qval_add(level_sum(x, plen, u), level_sum(y, plen, u)),
    decreases x.len(),
{
    if x.len() == 0 {
        assert(x + y =~= y);
        lemma_qval_add_zero(level_sum(y, plen, u));
    } else {
        assert((x + y).drop_first() =~= x.drop_first() + y);
        assert((x + y).first() == x.first());
        lemma_level_sum_concat(x.drop_first(), y, plen, u);
        if x.first().path.len() == plen {
            lemma_qval_add_assoc(
                acc_field(x.first().acc, u),
                level_sum(x.drop_first(), plen, u),
                level_sum(y, plen, u),
            );
        }
    }
}

proof fn lemma_level_sum_none(rows: Seq<RowModel>, plen: int, u: ResourceUsage)
    requires
        forall|i: int| 0 <= i < rows.len() ==> (#[trigger] rows[i].path).len() != plen,
    ensures
        level_sum(rows, plen, u) == qval_zero(),
    decreases rows.len(),
{
    if rows.len() > 0 {
        assert(rows[0].path.len() != plen);
        assert forall|i: int| 0 <= i < rows.drop_first().len() implies (#[trigger] rows.drop_first(
        )[i].path).len() != plen by {
            assert(rows.drop_first()[i] == rows[i + 1]);
        };
        lemma_level_sum_none(rows.drop_first(), plen, u);
    }
}

proof fn lemma_rows_from_long(
    ks: Seq<Seq<char>>,
    s: Seq<ResourceModel>,
    prefix: Seq<Seq<char>>,
    fs: Seq<GroupBy>,
    d: int,
)
    ensures
        forall|i: int| 0 <= i < rows_from(ks, s, prefix, fs, d).len() ==> (#[trigger] rows_from(
            ks,
            s,
            prefix,
            fs,
            d,
        )[i].path).len() > prefix.len(),
    decreases fs.len() - d, ks.len(),
{
    if d < 0 || d >= fs.len() || ks.len() == 0 {
    } else {
        let k = ks.first();
        let grp = filter_key(s, fs[d], k);
        let path = prefix.push(k);
        let a = seq![RowModel { path: path, acc: acc_of(grp) }];
        let b = rows_model(grp, path, fs, d + 1);
        let c = rows_from(ks.drop_first(), s, prefix, fs, d);
        lemma_rows_model_long(grp, path, fs, d + 1);
        lemma_rows_from_long(ks.drop_first(), s, prefix, fs, d);
        assert(rows_from(ks, s, prefix, fs, d) == a + b + c);
        assert forall|i: int| 0 <= i < (a + b + c).len() implies (#[trigger] (a + b + c)[i].path).len()
            > prefix.len() by {
            if i == 0 {
                assert((a + b + c)[i] == a[0]);
            } else if i < 1 + b.len() {
                assert((a + b)[i] == b[i - 1]);
                assert((a + b + c)[i] == b[i - 1]);
            } else {
                assert((a + b + c)[i] == c[i - 1 - b.len()]);
            }
        };
    }
}

proof fn lemma_rows_model_long(
    s: Seq<ResourceModel>,
    prefix: Seq<Seq<char>>,
    fs: Seq<GroupBy>,
    d: int,
)
    ensures
        forall|i: int| 0 <= i < rows_model(s, prefix, fs, d).len() ==> (#[trigger] rows_model(
            s,
            prefix,
            fs,
            d,
        )[i].path).len() > prefix.len(),
    decreases fs.len() - d, keys_of(s, fs[d]).len() + 1,
{
    if 0 <= d < fs.len() {
        lemma_rows_from_long(keys_of(s, fs[d]), s, prefix, fs, d);
        let rf = rows_from(keys_of(s, fs[d]), s, prefix, fs, d);
        assert(rows_model(s, prefix, fs, d) == rf);
        assert forall|i: int| 0 <= i < rows_model(s, prefix, fs, d).len() implies (
        #[trigger] rows_model(s, prefix, fs, d)[i].path).len() > prefix.len() by {
            assert(rows_model(s, prefix, fs, d)[i] == rf[i]);
        };
    }
}

proof fn lemma_level_sum_from(
    ks: Seq<Seq<char>>,
    s: Seq<ResourceModel>,
    prefix: Seq<Seq<char>>,
    fs: Seq<GroupBy>,
    d: int,
    l: int,
    u: ResourceUsage,
)
    requires
        0 <= d < fs.len(),
        1 <= l <= fs.len() - d,
    ensures
        level_sum(rows_from(ks, s, prefix, fs, d), prefix.len() + l, u) == ksum(ks, s, fs[d], u),
    decreases fs.len() - d, ks.len(),
{
    let plen = prefix.len() + l;
    if ks.len() == 0 {
    } else {
        let k = ks.first();
        let g = fs[d];
        let grp = filter_key(s, g, k);
        let path = prefix.push(k);
        let a = seq![RowModel { path: path, acc: acc_of(grp) }];
        let b = rows_model(grp, path, fs, d + 1);
        let c = rows_from(ks.drop_first(), s, prefix, fs, d);
        assert(rows_from(ks, s, prefix, fs, d) == a + b + c);
        lemma_level_sum_concat(a + b, c, plen, u);
        lemma_level_sum_concat(a, b, plen, u);
        lemma_level_sum_from(ks.drop_first(), s, prefix, fs, d, l, u);
        assert(a.drop_first() =~= Seq::<RowModel>::empty());
        assert(a.first() == RowModel { path: path, acc: acc_of(grp) });
        assert(path.len() == prefix.len() + 1);
        assert(level_sum(a.drop_first(), plen, u) == qval_zero());
        let sk = sum_usage(grp, u);
        assert(acc_field(acc_of(grp), u) == sk);
        let rr = ksum(ks.drop_first(), s, g, u);
        if l == 1 {
            // only the rows of this level count; every subtree row is
            // deeper
            lemma_rows_model_long(grp, path, fs, d + 1);
            assert forall|i: int| 0 <= i < b.len() implies (#[trigger] b[i].path).len()
                != plen by {
                assert(b[i].path.len() > path.len());
            };
            lemma_level_sum_none(b, plen, u);
            assert(level_sum(a, plen, u) == qval_add(sk, qval_zero()));
            lemma_qval_add_zero(sk);
            lemma_qval_add_zero(level_sum(a + b, plen, u));
            assert(level_sum(a + b, plen, u) == sk);
        } else {
            // this level's rows do not count; recurse one level deeper
            assert(level_sum(a, plen, u) == qval_zero());
            lemma_level_sum_from(keys_of(grp, fs[d + 1]), grp, path, fs, d + 1, l - 1, u);
            lemma_partition_sum(grp, fs[d + 1], u);
            assert(level_sum(b, plen, u) == sk);
            lemma_qval_add_zero(sk);
            assert(level_sum(a + b, plen, u) == sk);
        }
        assert(level_sum(a + b + c, plen, u) == qval_add(sk, rr));
    }
}

/// Strict lexicographic order on key paths: component by component, a
/// proper prefix coming first.
pub open spec fn path_lt(a: Seq<Seq<char>>, b: Seq<Seq<char>>) -> bool
    decreases a.len(),
{
    if b.len() == 0 {
        false
    } else if a.len() == 0 {
        true
    } else if a.first() != b.first() {
        lex_lt(a.first(), b.first())
    } else {
        path_lt(a.drop_first(), b.drop_first())
    }
}

pub proof fn lemma_path_lt_irrefl(a: Seq<Seq<char>>)
    ensures
        !path_lt(a, a),
    decreases a.len(),
{
    if a.len() > 0 {
        lemma_lex_irrefl(a.first());
        lemma_path_lt_irrefl(a.drop_first());
    }
}

proof fn lemma_path_lt_proper_prefix(a: Seq<Seq<char>>, b: Seq<Seq<char>>)
    requires
        a.len() < b.len(),
        a == b.take(a.len() as int),
    ensures
        path_lt(a, b),
    decreases a.len(),
{
    if a.len() > 0 {
        assert(a.first() == b.take(a.len() as int).first());
        assert(a.drop_first() =~= b.drop_first().take(a.len() - 1));
        lemma_path_lt_proper_prefix(a.drop_first(), b.drop_first());
    }
}

proof fn lemma_path_lt_diff_at(m: int, a: Seq<Seq<char>>, b: Seq<Seq<char>>)
    requires
        0 <= m < a.len(),
        m < b.len(),
        a.take(m) == b.take(m),
        lex_lt(a[m], b[m]),
    ensures
        path_lt(a, b),
    decreases m,
{
    if m == 0 {
        if a.first() == b.first() {
            lemma_lex_irrefl(a[0]);
        }
    } else {
        assert(a.first() == a.take(m)[0]);
        assert(b.first() == b.take(m)[0]);
        assert forall|t: int| 0 <= t < m - 1 implies #[trigger] a.drop_first().take(m - 1)[t]
            == b.drop_first().take(m - 1)[t] by {
            assert(a.take(m)[t + 1] == b.take(m)[t + 1]);
            assert(a.take(m)[t + 1] == a[t + 1]);
            assert(b.take(m)[t + 1] == b[t + 1]);
            assert(a.drop_first().take(m - 1)[t] == a[t + 1]);
            assert(b.drop_first().take(m - 1)[t] == b[t + 1]);
        };
        assert(a.drop_first().take(m - 1) =~= b.drop_first().take(m - 1));
        assert(a.drop_first()[m - 1] == a[m]);
        assert(b.drop_first()[m - 1] == b[m]);
        lemma_path_lt_diff_at(m - 1, a.drop_first(), b.drop_first());
    }
}

proof fn lemma_rows_from_sorted(
    ks: Seq<Seq<char>>,
    s: Seq<ResourceModel>,
    prefix: Seq<Seq<char>>,
    fs: Seq<GroupBy>,
    d: int,
)
    requires
        key_sorted(ks),
        0 <= d,
    ensures
        forall|i: int| 0 <= i < rows_from(ks, s, prefix, fs, d).len() ==> (#[trigger] rows_from(
            ks,
            s,
            prefix,
            fs,
            d,
        )[i].path).len() > prefix.len() && rows_from(ks, s, prefix, fs, d)[i].path.take(
            prefix.len() as int,
        ) == prefix && ks.contains(rows_from(ks, s, prefix, fs, d)[i].path[prefix.len() as int]),
        forall|i: int, j: int| 0 <= i < j < rows_from(ks, s, prefix, fs, d).len()
            ==> #[trigger] path_lt(
            rows_from(ks, s, prefix, fs, d)[i].path,
            rows_from(ks, s, prefix, fs, d)[j].path,
        ),
    decreases fs.len() - d, ks.len(),
{
    if d >= fs.len() || ks.len() == 0 {
    } else {
        let k0 = ks.first();
        let grp = filter_key(s, fs[d], k0);
        let path0 = prefix.push(k0);
        let a = seq![RowModel { path: path0, acc: acc_of(grp) }];
        let b = rows_model(grp, path0, fs, d + 1);
        let c = rows_from(ks.drop_first(), s, prefix, fs, d);
        let rows = rows_from(ks, s, prefix, fs, d);
        assert(rows == a + b + c);
        assert forall|i: int, j: int| 0 <= i < j < ks.drop_first().len() implies #[trigger] lex_lt(
            ks.drop_first()[i],
            ks.drop_first()[j],
        ) by {
            assert(lex_lt(ks[i + 1], ks[j + 1]));
        };
        lemma_rows_from_sorted(ks.drop_first(), s, prefix, fs, d);
        lemma_rows_model_sorted(grp, path0, fs, d + 1);
        assert(path0.take(prefix.len() as int) =~= prefix);
        // every row extends the prefix with a listed label
        assert forall|i: int| 0 <= i < rows.len() implies (#[trigger] rows[i].path).len()
            > prefix.len() && rows[i].path.take(prefix.len() as int) == prefix && ks.contains(
            rows[i].path[prefix.len() as int],
        ) by {
            if i == 0 {
                assert(rows[i] == a[0]);
                assert(path0[prefix.len() as int] == k0);
                assert(ks[0] == k0);
            } else if i < 1 + b.len() {
                assert((a + b)[i] == b[i - 1]);
                assert(rows[i] == b[i - 1]);
                let p = b[i - 1].path;
                assert(p.take(path0.len() as int) == path0);
                assert(p.take(prefix.len() as int) =~= path0.take(prefix.len() as int));
                assert(p[prefix.len() as int] == p.take(path0.len() as int)[prefix.len() as int]);
                assert(p[prefix.len() as int] == k0);
                assert(ks[0] == k0);
            } else {
                assert(rows[i] == c[i - 1 - b.len()]);
                let p = c[i - 1 - b.len()].path;
                assert(ks.drop_first().contains(p[prefix.len() as int]));
                let m = choose|m: int|
                    0 <= m < ks.drop_first().len() && ks.drop_first()[m] == p[prefix.len() as int];
                assert(ks[m + 1] == p[prefix.len() as int]);
            }
        };
        // and the rows are strictly ordered
        assert forall|i: int, j: int| 0 <= i < j < rows.len() implies #[trigger] path_lt(
            rows[i].path,
            rows[j].path,
        ) by {
            let pi = rows[i].path;
            let pj = rows[j].path;
            if j < 1 + b.len() {
                // both in this label's block
                if i == 0 {
                    assert(rows[i] == a[0]);
                    assert((a + b)[j] == b[j - 1]);
                    assert(rows[j] == b[j - 1]);
                    assert(pj.take(path0.len() as int) == path0);
                    lemma_path_lt_proper_prefix(path0, pj);
                } else {
                    assert((a + b)[i] == b[i - 1]);
                    assert((a + b)[j] == b[j - 1]);
                    assert(rows[i] == b[i - 1]);
                    assert(rows[j] == b[j - 1]);
                    assert(path_lt(b[i - 1].path, b[j - 1].path));
                }
            } else if i >= 1 + b.len() {
                // both in a later label's block
                assert(rows[i] == c[i - 1 - b.len()]);
                assert(rows[j] == c[j - 1 - b.len()]);
                assert(path_lt(c[i - 1 - b.len()].path, c[j - 1 - b.len()].path));
            } else {
                // `i` in this block, `j` under a strictly later label
                assert(rows[j] == c[j - 1 - b.len()]);
                let kj = pj[prefix.len() as int];
                assert(ks.drop_first().contains(kj));
                let m = choose|m: int|
                    0 <= m < ks.drop_first().len() && ks.drop_first()[m] == kj;
                assert(ks[m + 1] == kj);
                assert(lex_lt(ks[0], ks[m + 1]));
                if i == 0 {
                    assert(rows[i] == a[0]);
                    assert(pi == path0);
                } else {
                    assert((a + b)[i] == b[i - 1]);
                    assert(rows[i] == b[i - 1]);
                    assert(pi.take(path0.len() as int) == path0);
                    assert(pi[prefix.len() as int] == pi.take(path0.len() as int)[prefix.len() as int]);
                }
                assert(pi[prefix.len() as int] == k0);
                assert(pi.take(prefix.len() as int) =~= pj.take(prefix.len() as int));
                lemma_path_lt_diff_at(prefix.len() as int, pi, pj);
            }
        };
    }
}

proof fn lemma_rows_model_sorted(
    s: Seq<ResourceModel>,
    prefix: Seq<Seq<char>>,
    fs: Seq<GroupBy>,
    d: int,
)
    requires
        0 <= d,
    ensures
        forall|i: int| 0 <= i < rows_model(s, prefix, fs, d).len() ==> (#[trigger] rows_model(
            s,
            prefix,
            fs,
            d,
        )[i].path).len() > prefix.len() && rows_model(s, prefix, fs, d)[i].path.take(
            prefix.len() as int,
        ) == prefix,
        forall|i: int, j: int| 0 <= i < j < rows_model(s, prefix, fs, d).len()
            ==> #[trigger] path_lt(
            rows_model(s, prefix, fs, d)[i].path,
            rows_model(s, prefix, fs, d)[j].path,
        ),
    decreases fs.len() - d, keys_of(s, fs[d]).len() + 1,
{
    if 0 <= d < fs.len() {
        lemma_keys_of_sorted(s, fs[d]);
        lemma_rows_from_sorted(keys_of(s, fs[d]), s, prefix, fs, d);
        let rf = rows_from(keys_of(s, fs[d]), s, prefix, fs, d);
        assert(rows_model(s, prefix, fs, d) == rf);
        assert forall|i: int| 0 <= i < rows_model(s, prefix, fs, d).len() implies (
        #[trigger] rows_model(s, prefix, fs, d)[i].path).len() > prefix.len() && rows_model(
            s,
            prefix,
            fs,
            d,
        )[i].path.take(prefix.len() as int) == prefix by {
            assert(rows_model(s, prefix, fs, d)[i] == rf[i]);
        };
        assert forall|i: int, j: int| 0 <= i < j < rows_model(s, prefix, fs, d).len()
            implies #[trigger] path_lt(
            rows_model(s, prefix, fs, d)[i].path,
            rows_model(s, prefix, fs, d)[j].path,
        ) by {
            assert(rows_model(s, prefix, fs, d)[i] == rf[i]);
            assert(rows_model(s, prefix, fs, d)[j] == rf[j]);
        };
    }
}

/// Determinism and uniqueness of the emitted order: the aggregate rows
/// come out strictly sorted by key path in lexicographic order, so in
/// particular no two rows share a path.
pub proof fn lemma_rows_sorted_and_distinct(s: Seq<ResourceModel>, fs: Seq<GroupBy>)
    ensures
        forall|i: int, j: int| 0 <= i < j < rows_model(s, Seq::empty(), fs, 0).len()
            ==> #[trigger] path_lt(
            rows_model(s, Seq::empty(), fs, 0)[i].path,
            rows_model(s, Seq::empty(), fs, 0)[j].path,
        ),
        forall|i: int, j: int| 0 <= i < j < rows_model(s, Seq::empty(), fs, 0).len()
            ==> rows_model(s, Seq::empty(), fs, 0)[i].path != rows_model(
            s,
            Seq::empty(),
            fs,
            0,
        )[j].path,
{
    let rows = rows_model(s, Seq::<Seq<char>>::empty(), fs, 0);
    lemma_rows_model_sorted(s, Seq::empty(), fs, 0);
    assert forall|i: int, j: int| 0 <= i < j < rows.len() implies rows[i].path
        != rows[j].path by {
        assert(path_lt(rows[i].path, rows[j].path));
        lemma_path_lt_irrefl(rows[i].path);
    };
}

/// Aggregation completeness: for any observations and any non-empty list
/// of extractors, the deepest-level sums and the top-level sums of each
/// usage kind both equal the plain sum over all observations — no
/// observation is lost or counted twice by the grouping.
pub proof fn lemma_aggregation_complete(s: Seq<ResourceModel>, fs: Seq<GroupBy>, u: ResourceUsage)
    requires
        fs.len() >= 1,
    ensures
        level_sum(rows_model(s, Seq::empty(), fs, 0), fs.len() as int, u) == sum_usage(s, u),
        level_sum(rows_model(s, Seq::empty(), fs, 0), 1, u) == sum_usage(s, u),
{
    let e = Seq::<Seq<char>>::empty();
    lemma_level_sum_from(keys_of(s, fs[0]), s, e, fs, 0, fs.len() as int, u);
    lemma_level_sum_from(keys_of(s, fs[0]), s, e, fs, 0, 1, u);
    lemma_partition_sum(s, fs[0], u);
}

/// Compares the tails of `a` and `b` from position `i` on, earlier
/// characters being equal.
fn str_lt_from(a: &str, b: &str, na: usize, nb: usize, i: usize) -> (r: bool)
    requires
        na == a@.len(),
        nb == b@.len(),
        i <= na,
        i <= nb,
    ensures
        r == lex_lt(a@.skip(i as int), b@.skip(i as int)),
    decreases na - i,
{
    if i == nb {
        false
    } else if i == na {
        true
    } else {
        let ca = a.get_char(i);
        let cb = b.get_char(i);
        if ca != cb {
            ca < cb
        } else {
            proof {
                assert(a@.skip(i as int).drop_first() =~= a@.skip(i + 1));
                assert(b@.skip(i as int).drop_first() =~= b@.skip(i + 1));
            }
            str_lt_from(a, b, na, nb, i + 1)
        }
    }
}

/// Strict lexicographic comparison of two labels.
fn str_lt(a: &str, b: &str) -> (r: bool)
    ensures
        r == lex_lt(a@, b@),
{
    let na = a.unicode_len();
    let nb = b.unicode_len();
    proof {
        assert(a@.skip(0) =~= a@);
        assert(b@.skip(0) =~= b@);
    }
    str_lt_from(a, b, na, nb, 0)
}

/// Inserts a label into a sorted list of distinct labels, keeping it out
/// if it is already there.
fn insert_key_exec(keys: &mut Vec<String>, k: String)
    ensures
        views_of(final(keys)@) == insert_key(views_of(old(keys)@), k@),
{
    let ghost ks0 = views_of(keys@);
    let mut i: usize = 0;
    while i < keys.len() && str_lt(keys[i].as_str(), k.as_str())
        invariant
            i <= keys.len(),
            keys@ == old(keys)@,
            ks0 == views_of(keys@),
            forall|j: int| 0 <= j < i ==> lex_lt(ks0[j], k@),
        decreases keys.len() - i,
    {
        i = i + 1;
    }
    proof {
        lemma_insert_key_split(ks0, k@, i as int);
    }
    if i == keys.len() {
        keys.push(k);
        proof {
            assert(ks0.skip(i as int) =~= Seq::<Seq<char>>::empty());
            assert(views_of(keys@) =~= ks0.take(i as int) + insert_key(
                ks0.skip(i as int),
                views_of(keys@)[i as int],
            ));
        }
    } else {
        let same = keys[i] == k;
        if same {
            proof {
                assert(ks0.skip(i as int).first() == k@);
                assert(ks0.take(i as int) + ks0.skip(i as int) =~= ks0);
            }
        } else {
            proof {
                assert(ks0.skip(i as int).first() == ks0[i as int]);
                lemma_lex_total(ks0[i as int], k@);
                assert(lex_lt(k@, ks0[i as int]));
            }
            keys.insert(i, k);
            proof {
                assert(views_of(keys@) =~= ks0.take(i as int) + (seq![k@] + ks0.skip(i as int)));
            }
        }
    }
}

/// A fresh copy of a list of labels.
fn clone_strings(xs: &[String]) -> (r: Vec<String>)
    ensures
        r@ == xs@,
{
    let mut r: Vec<String> = Vec::new();
    let mut i: usize = 0;
    while i < xs.len()
        invariant
            i <= xs.len(),
            r@ == xs@.take(i as int),
        decreases xs.len() - i,
    {
        r.push(slice_index_get(xs, i).clone());
        proof {
            assert(xs@.take(i + 1).drop_last() =~= xs@.take(i as int));
        }
        i = i + 1;
    }
    proof {
        assert(xs@.take(xs@.len() as int) =~= xs@);
    }
    r
}

/// Partitions the observations by the extractor at `group_by_depth`,
/// emits one row per partition followed depth-first by the partition's
/// own subtree, siblings in lexicographic label order; the rows are
/// exactly `rows_model` of the observations.
pub fn make_group_x_usage(
    rsrcs: &[&Resource],
    prefix: &[String],
    group_by_fct: &[GroupBy],
    group_by_depth: usize,
) -> (out: Vec<(Vec<String>, QtyOfUsage)>)
    ensures
        rows_of(out@) == rows_model(
            models_of(rsrcs@),
            views_of(prefix@),
            group_by_fct@,
            group_by_depth as int,
        ),
    decreases group_by_fct@.len() - group_by_depth,
{
    let mut out: Vec<(Vec<String>, QtyOfUsage)> = Vec::new();
    if group_by_depth >= group_by_fct.len() {
        proof {
            assert(rows_of(out@) =~= rows_model(
                models_of(rsrcs@),
                views_of(prefix@),
                group_by_fct@,
                group_by_depth as int,
            ));
        }
        return out;
    }
    let nf = group_by_fct.len();
    let g = *slice_index_get(group_by_fct, group_by_depth);
    let ghost ms = models_of(rsrcs@);
    // the distinct labels at this depth, in order
    let mut keys: Vec<String> = Vec::new();
    let mut t: usize = 0;
    while t < rsrcs.len()
        invariant
            t <= rsrcs.len(),
            ms == models_of(rsrcs@),
            g == group_by_fct@[group_by_depth as int],
            views_of(keys@) == keys_of(ms.take(t as int), g),
        decreases rsrcs.len() - t,
    {
        let e: &&Resource = slice_index_get(rsrcs, t);
        let kstr = g.extract(*e);
        insert_key_exec(&mut keys, kstr);
        proof {
            assert(ms.take(t + 1).drop_last() =~= ms.take(t as int));
            assert(ms.take(t + 1).last() == ms[t as int]);
        }
        t = t + 1;
    }
    proof {
        assert(ms.take(rsrcs@.len() as int) =~= ms);
    }
    let ghost kviews = views_of(keys@);
    let ghost pviews = views_of(prefix@);
    proof {
        assert(kviews.skip(0) =~= kviews);
        assert(rows_of(out@) =~= Seq::<RowModel>::empty());
        assert(Seq::<RowModel>::empty() + rows_from(
            kviews,
            ms,
            pviews,
            group_by_fct@,
            group_by_depth as int,
        ) =~= rows_from(kviews, ms, pviews, group_by_fct@, group_by_depth as int));
    }
    let mut ki: usize = 0;
    while ki < keys.len()
        invariant
            ki <= keys.len(),
            kviews == views_of(keys@),
            pviews == views_of(prefix@),
            ms == models_of(rsrcs@),
            g == group_by_fct@[group_by_depth as int],
            nf == group_by_fct@.len(),
            group_by_depth < nf,
            rows_of(out@) + rows_from(
                kviews.skip(ki as int),
                ms,
                pviews,
                group_by_fct@,
                group_by_depth as int,
            ) == rows_from(kviews, ms, pviews, group_by_fct@, group_by_depth as int),
        decreases keys.len() - ki,
    {
        let ghost kv = kviews[ki as int];
        // the partition for this label
        let mut grp: Vec<&Resource> = Vec::new();
        let mut t2: usize = 0;
        while t2 < rsrcs.len()
            invariant
                t2 <= rsrcs.len(),
                ms == models_of(rsrcs@),
                g == group_by_fct@[group_by_depth as int],
                ki < keys.len(),
                kv == views_of(keys@)[ki as int],
                models_of(grp@) == filter_key(ms.take(t2 as int), g, kv),
            decreases rsrcs.len() - t2,
        {
            let e: &&Resource = slice_index_get(rsrcs, t2);
            let ek = g.extract(*e);
            proof {
                assert(ms.take(t2 + 1).drop_last() =~= ms.take(t2 as int));
                assert(ms.take(t2 + 1).last() == ms[t2 as int]);
            }
            if ek == keys[ki] {
                let ghost grp0 = grp@;
                grp.push(*e);
                proof {
                    lemma_models_of_push(grp0, *e);
                }
            }
            t2 = t2 + 1;
        }
        proof {
            assert(ms.take(rsrcs@.len() as int) =~= ms);
        }
        // this group's path
        let mut path = clone_strings(prefix);
        path.push(keys[ki].clone());
        let qsum = sum_by_usage(grp.as_slice());
        let mut children = make_group_x_usage(
            grp.as_slice(),
            path.as_slice(),
            group_by_fct,
            group_by_depth + 1,
        );
        let ghost out_before = out@;
        let ghost children_v = children@;
        let path_for_row = clone_strings(path.as_slice());
        out.push((path_for_row, qsum));
        out.append(&mut children);
        proof {
            assert(views_of(path@) =~= pviews.push(kv));
            assert(kviews.skip(ki as int).drop_first() =~= kviews.skip(ki + 1));
            assert(rows_of(out@) =~= rows_of(out_before) + (seq![
                RowModel { path: views_of(path@), acc: qsum@ },
            ] + rows_of(children_v)));
        }
        ki = ki + 1;
    }
    proof {
        assert(kviews.skip(keys@.len() as int) =~= Seq::<Seq<char>>::empty());
        assert(rows_of(out@) + Seq::<RowModel>::empty() =~= rows_of(out@));
    }
    out
}

/// Aggregates by resource kind, then by node name: the default grouping
/// of the tool.
pub fn make_kind_x_usage(rsrcs: &[Resource]) -> (out: Vec<(Vec<String>, QtyOfUsage)>)
    ensures
        rows_of(out@) == rows_model(
            models_direct(rsrcs@),
            Seq::empty(),
            seq![GroupBy::Kind, GroupBy::NodeName],
            0,
        ),
{
    let mut group_by_fct: Vec<GroupBy> = Vec::new();
    group_by_fct.push(GroupBy::Kind);
    group_by_fct.push(GroupBy::NodeName);
    let mut refs: Vec<&Resource> = Vec::new();
    let mut i: usize = 0;
    while i < rsrcs.len()
        invariant
            i <= rsrcs.len(),
            models_of(refs@) == models_direct(rsrcs@.take(i as int)),
        decreases rsrcs.len() - i,
    {
        let ghost refs0 = refs@;
        let e: &Resource = slice_index_get(rsrcs, i);
        refs.push(e);
        proof {
            lemma_models_of_push(refs0, e);
            lemma_models_direct_take(rsrcs@, i as int);
        }
        i = i + 1;
    }
    proof {
        assert(rsrcs@.take(rsrcs@.len() as int) =~= rsrcs@);
    }
    let prefix: Vec<String> = Vec::new();
    let out = make_group_x_usage(refs.as_slice(), prefix.as_slice(), group_by_fct.as_slice(), 0);
    proof {
        assert(views_of(prefix@) =~= Seq::<Seq<char>>::empty());
        assert(group_by_fct@ =~= seq![GroupBy::Kind, GroupBy::NodeName]);
        assert(models_of(refs@) =~= models_direct(rsrcs@));
    }
    out
}

} // verus!
