//! Measurement records and their grouping by part and by operator.
use vstd::prelude::*;
use crate::ident::{key_of, lex_lt, compare_ids, KeyOrder};

verus! {

/// One observed value of a part, taken by an operator.
pub struct MeasurementRecord {
    pub part_id: String,
    pub operator_id: String,
    /// Repeat index within the part and operator cell, starting at 1.
    pub replicate: u32,
    /// Measured value, in units of the gage resolution.
    pub measured: i32,
    /// Target value, in the same units; not used by the analysis.
    pub nominal: Option<i32>,
}

/// The two factors by which records are grouped.
#[derive(Clone, Copy, Debug, PartialEq, Eq, Structural)]
pub enum Axis {
    Part,
    Operator,
}

/// The identifier bytes of a record along one factor.
pub open spec fn record_key(r: MeasurementRecord, axis: Axis) -> Seq<u8> {
    match axis {
        Axis::Part => key_of(&r.part_id),
        Axis::Operator => key_of(&r.operator_id),
    }
}

/// The measured values of the records whose identifier along `axis` is `key`,
/// in the order of the records.
pub open spec fn values_of(recs: Seq<MeasurementRecord>, axis: Axis, key: Seq<u8>) -> Seq<i32>
    decreases recs.len(),
{
    if recs.len() == 0 {
        seq![]
    } else {
        let prev = values_of(recs.drop_last(), axis, key);
        if record_key(recs.last(), axis) == key {
            prev.push(recs.last().measured)
        } else {
            prev
        }
    }
}

/// Identifiers in strictly increasing order of their bytes (hence distinct).
pub open spec fn strictly_sorted(ids: Seq<String>) -> bool {
    forall|i: int, j: int|
        0 <= i < j < ids.len() ==> lex_lt(#[trigger] key_of(&ids[i]), #[trigger] key_of(&ids[j]))
}

/// Some identifier of `ids` has the bytes `key`.
#[verifier::opaque]
pub open spec fn contains_key(ids: Seq<String>, key: Seq<u8>) -> bool {
    exists|g: int| 0 <= g < ids.len() && key_of(&ids[g]) == key
}

/// One of the first `n` records has the identifier bytes `key` along `axis`.
#[verifier::opaque]
pub open spec fn key_seen(recs: Seq<MeasurementRecord>, n: int, axis: Axis, key: Seq<u8>) -> bool {
    exists|k: int| 0 <= k < n && record_key(recs[k], axis) == key
}

/// `ids` holds exactly the identifiers along `axis` of the first `n` records.
pub open spec fn lists_keys(ids: Seq<String>, recs: Seq<MeasurementRecord>, n: int, axis: Axis) -> bool {
    &&& forall|k: int| 0 <= k < n ==> contains_key(ids, record_key(#[trigger] recs[k], axis))
    &&& forall|g: int| 0 <= g < ids.len() ==> key_seen(recs, n, axis, key_of(#[trigger] &ids[g]))
}

/// The values of one part, or of one operator.
pub struct Group {
    pub id: String,
    pub values: Vec<i32>,
}

pub open spec fn group_ids(groups: Seq<Group>) -> Seq<String> {
    groups.map_values(|g: Group| g.id)
}

/// `groups` is the grouping of `recs` along `axis`: one group per distinct
/// identifier, ordered by identifier, each with its values in record order.
pub open spec fn is_grouping(groups: Seq<Group>, recs: Seq<MeasurementRecord>, axis: Axis) -> bool {
    &&& strictly_sorted(group_ids(groups))
    &&& lists_keys(group_ids(groups), recs, recs.len() as int, axis)
    &&& forall|g: int|
        0 <= g < groups.len() ==> (#[trigger] groups[g]).values@ == values_of(recs, axis, key_of(&groups[g].id))
}

/// Where one record falls: the index of its part and of its operator in the
/// sorted groups, and its measured value.
#[derive(Clone, Copy, Debug, PartialEq, Eq, Structural)]
pub struct Observation {
    pub part: usize,
    pub operator: usize,
    pub value: i32,
}

/// Records grouped by part and by operator.
pub struct GroupedDataset {
    pub name: String,
    pub parts: Vec<Group>,
    pub operators: Vec<Group>,
    /// One entry per record, in record order.
    pub observations: Vec<Observation>,
}

/// `obs` places each record of `recs` in its part and operator group.
pub open spec fn places(obs: Seq<Observation>, parts: Seq<Group>, operators: Seq<Group>, recs: Seq<MeasurementRecord>) -> bool {
    &&& obs.len() == recs.len()
    &&& forall|k: int|
        0 <= k < obs.len() ==> {
            &&& (#[trigger] obs[k]).part < parts.len()
            &&& obs[k].operator < operators.len()
            &&& key_of(&parts[obs[k].part as int].id) == record_key(recs[k], Axis::Part)
            &&& key_of(&operators[obs[k].operator as int].id) == record_key(recs[k], Axis::Operator)
            &&& obs[k].value == recs[k].measured
        }
}

impl GroupedDataset {
    /// `self` is the grouping of `recs`.
    pub open spec fn groups(&self, recs: Seq<MeasurementRecord>) -> bool {
        &&& is_grouping(self.parts@, recs, Axis::Part)
        &&& is_grouping(self.operators@, recs, Axis::Operator)
        &&& places(self.observations@, self.parts@, self.operators@, recs)
    }

    /// Groups the records by part and by operator, each ordered by identifier.
    pub fn from_records(name: String, records: &Vec<MeasurementRecord>) -> (ds: GroupedDataset)
        ensures
            ds.name == name,
            ds.groups(records@),
    {
        let parts = build_groups(records, Axis::Part);
        let operators = build_groups(records, Axis::Operator);
        let observations = place_records(records, &parts, &operators);
        GroupedDataset { name, parts, operators, observations }
    }
}

/// The part and operator index of each record.
fn place_records(records: &Vec<MeasurementRecord>, parts: &Vec<Group>, operators: &Vec<Group>) -> (obs: Vec<Observation>)
    requires
        lists_keys(group_ids(parts@), records@, records@.len() as int, Axis::Part),
        lists_keys(group_ids(operators@), records@, records@.len() as int, Axis::Operator),
    ensures
        places(obs@, parts@, operators@, records@),
{
    let mut observations: Vec<Observation> = Vec::new();
    let mut k: usize = 0;
    while k < records.len()
        invariant
            k <= records.len(),
            lists_keys(group_ids(parts@), records@, records@.len() as int, Axis::Part),
            lists_keys(group_ids(operators@), records@, records@.len() as int, Axis::Operator),
            observations@.len() == k,
            forall|m: int|
                0 <= m < k ==> {
                    &&& (#[trigger] observations@[m]).part < parts@.len()
                    &&& observations@[m].operator < operators@.len()
                    &&& key_of(&parts@[observations@[m].part as int].id) == record_key(records@[m], Axis::Part)
                    &&& key_of(&operators@[observations@[m].operator as int].id) == record_key(records@[m], Axis::Operator)
                    &&& observations@[m].value == records@[m].measured
                },
        decreases records.len() - k,
    {
        let rec = &records[k];
        let ghost kk = k as int;
        assert(rec == records@[kk]);
        let pid = record_id(rec, Axis::Part);
        let oid = record_id(rec, Axis::Operator);
        assert(contains_key(group_ids(parts@), record_key(records@[kk], Axis::Part)));
        assert(contains_key(group_ids(operators@), record_key(records@[kk], Axis::Operator)));
        let part = find_group(parts, pid);
        let operator = find_group(operators, oid);
        observations.push(Observation { part, operator, value: rec.measured });
        k = k + 1;
    }
    observations
}

/// The identifier of a record along one factor.
pub fn record_id(r: &MeasurementRecord, axis: Axis) -> (s: &String)
    ensures
        key_of(s) == record_key(*r, axis),
{
    match axis {
        Axis::Part => &r.part_id,
        Axis::Operator => &r.operator_id,
    }
}

/// The index of the group whose identifier is `id`.
fn find_group(groups: &Vec<Group>, id: &String) -> (g: usize)
    requires
        contains_key(group_ids(groups@), key_of(id)),
    ensures
        g < groups@.len(),
        key_of(&groups@[g as int].id) == key_of(id),
{
    let mut j: usize = 0;
    while j < groups.len()
        invariant
            j <= groups@.len(),
            forall|m: int| 0 <= m < j ==> key_of(&(#[trigger] groups@[m]).id) != key_of(id),
        decreases groups@.len() - j,
    {
        if compare_ids(&groups[j].id, id) == KeyOrder::Equal {
            return j;
        }
        j = j + 1;
    }
    proof {
        reveal(contains_key);
        let g = choose|g: int| 0 <= g < group_ids(groups@).len() && key_of(&group_ids(groups@)[g]) == key_of(id);
        assert(group_ids(groups@)[g] == groups@[g].id);
        assert(false);
    }
    0
}

proof fn lemma_key_present(ids: Seq<String>, recs: Seq<MeasurementRecord>, i: int, axis: Axis, j: int)
    requires
        0 <= i < recs.len(),
        0 <= j < ids.len(),
        lists_keys(ids, recs, i, axis),
        key_of(&ids[j]) == record_key(recs[i], axis),
    ensures
        lists_keys(ids, recs, i + 1, axis),
{
    assert(contains_key(ids, record_key(recs[i], axis))) by {
        reveal(contains_key);
    }
    assert forall|g: int| 0 <= g < ids.len() implies key_seen(recs, i + 1, axis, key_of(#[trigger] &ids[g])) by {
        assert(key_seen(recs, i, axis, key_of(&ids[g])));
        reveal(key_seen);
    }
}

proof fn lemma_inserted_sorted(old_ids: Seq<String>, ids: Seq<String>, id: String, j: int)
    requires
        0 <= j <= old_ids.len(),
        ids == old_ids.insert(j, id),
        strictly_sorted(old_ids),
        forall|m: int| 0 <= m < j ==> lex_lt(#[trigger] key_of(&old_ids[m]), key_of(&id)),
        j < old_ids.len() ==> lex_lt(key_of(&id), key_of(&old_ids[j])),
    ensures
        strictly_sorted(ids),
{
    assert forall|a: int, b: int| 0 <= a < b < ids.len() implies lex_lt(
        #[trigger] key_of(&ids[a]),
        #[trigger] key_of(&ids[b]),
    ) by {
        if b < j {
            assert(ids[a] == old_ids[a] && ids[b] == old_ids[b]);
        } else if b == j {
            assert(ids[a] == old_ids[a]);
        } else if a < j {
            assert(ids[a] == old_ids[a] && ids[b] == old_ids[b - 1]);
            assert(lex_lt(key_of(&old_ids[a]), key_of(&old_ids[b - 1])));
        } else if a == j {
            assert(ids[b] == old_ids[b - 1]);
            if b - 1 > j {
                assert(lex_lt(key_of(&old_ids[j]), key_of(&old_ids[b - 1])));
                crate::ident::lemma_lex_transitive(key_of(&id), key_of(&old_ids[j]), key_of(&old_ids[b - 1]));
            }
        } else {
            assert(ids[a] == old_ids[a - 1] && ids[b] == old_ids[b - 1]);
            assert(lex_lt(key_of(&old_ids[a - 1]), key_of(&old_ids[b - 1])));
        }
    }
}

proof fn lemma_inserted_lists(
    old_ids: Seq<String>,
    ids: Seq<String>,
    id: String,
    recs: Seq<MeasurementRecord>,
    i: int,
    axis: Axis,
    j: int,
)
    requires
        0 <= i < recs.len(),
        0 <= j <= old_ids.len(),
        ids == old_ids.insert(j, id),
        lists_keys(old_ids, recs, i, axis),
        key_of(&id) == record_key(recs[i], axis),
    ensures
        lists_keys(ids, recs, i + 1, axis),
{
    assert forall|k: int| 0 <= k < i + 1 implies contains_key(ids, record_key(#[trigger] recs[k], axis)) by {
        reveal(contains_key);
        if k == i {
            assert(ids[j] == id);
            assert(key_of(&ids[j]) == record_key(recs[k], axis));
        } else {
            assert(contains_key(old_ids, record_key(recs[k], axis)));
            let g = choose|g: int| 0 <= g < old_ids.len() && key_of(&old_ids[g]) == record_key(recs[k], axis);
            if g < j {
                assert(ids[g] == old_ids[g]);
                assert(key_of(&ids[g]) == record_key(recs[k], axis));
            } else {
                assert(ids[g + 1] == old_ids[g]);
                assert(key_of(&ids[g + 1]) == record_key(recs[k], axis));
            }
        }
    }
    assert forall|g: int| 0 <= g < ids.len() implies key_seen(recs, i + 1, axis, key_of(#[trigger] &ids[g])) by {
        reveal(key_seen);
        if g == j {
            assert(ids[g] == id);
            assert(record_key(recs[i], axis) == key_of(&ids[g]));
        } else {
            let og = if g < j { g } else { g - 1 };
            assert(ids[g] == old_ids[og]);
            assert(key_seen(recs, i, axis, key_of(&old_ids[og])));
            let k = choose|k: int| 0 <= k < i && record_key(recs[k], axis) == key_of(&old_ids[og]);
            assert(record_key(recs[k], axis) == key_of(&ids[g]));
        }
    }
}

/// The distinct identifiers along `axis`, in increasing order.
fn sorted_ids(records: &Vec<MeasurementRecord>, axis: Axis) -> (ids: Vec<String>)
    ensures
        strictly_sorted(ids@),
        lists_keys(ids@, records@, records@.len() as int, axis),
{
    let mut ids: Vec<String> = Vec::new();
    let mut i: usize = 0;
    while i < records.len()
        invariant
            i <= records@.len(),
            strictly_sorted(ids@),
            lists_keys(ids@, records@, i as int, axis),
        decreases records@.len() - i,
    {
        let id = record_id(&records[i], axis);
        assert(key_of(id) == record_key(records@[i as int], axis));
        let mut j: usize = 0;
        while j < ids.len() && compare_ids(&ids[j], id) == KeyOrder::Less
            invariant
                j <= ids@.len(),
                forall|m: int| 0 <= m < j ==> lex_lt(#[trigger] key_of(&ids@[m]), key_of(id)),
            decreases ids@.len() - j,
        {
            j = j + 1;
        }
        if j < ids.len() && compare_ids(&ids[j], id) == KeyOrder::Equal {
            proof { lemma_key_present(ids@, records@, i as int, axis, j as int); }
        } else {
            let ghost old_ids = ids@;
            proof {
                if j < ids@.len() {
                    assert(lex_lt(key_of(id), key_of(&ids@[j as int])));
                }
            }
            ids.insert(j, id.clone());
            proof {
                lemma_inserted_sorted(old_ids, ids@, *id, j as int);
                lemma_inserted_lists(old_ids, ids@, *id, records@, i as int, axis, j as int);
            }
        }
        i = i + 1;
    }
    ids
}

/// The measured values of the records whose identifier along `axis` is `id`.
fn values_for(records: &Vec<MeasurementRecord>, axis: Axis, id: &String) -> (v: Vec<i32>)
    ensures
        v@ == values_of(records@, axis, key_of(id)),
{
    let mut v: Vec<i32> = Vec::new();
    let mut i: usize = 0;
    while i < records.len()
        invariant
            i <= records@.len(),
            v@ == values_of(records@.subrange(0, i as int), axis, key_of(id)),
        decreases records@.len() - i,
    {
        let ghost prefix = records@.subrange(0, i + 1);
        assert(prefix.drop_last() =~= records@.subrange(0, i as int));
        assert(prefix.last() == records@[i as int]);
        if compare_ids(record_id(&records[i], axis), id) == KeyOrder::Equal {
            v.push(records[i].measured);
        }
        i = i + 1;
    }
    assert(records@.subrange(0, records@.len() as int) =~= records@);
    v
}

/// The grouping of the records along `axis`.
fn build_groups(records: &Vec<MeasurementRecord>, axis: Axis) -> (groups: Vec<Group>)
    ensures
        is_grouping(groups@, records@, axis),
{
    let ids = sorted_ids(records, axis);
    let mut groups: Vec<Group> = Vec::new();
    let mut g: usize = 0;
    while g < ids.len()
        invariant
            g <= ids@.len(),
            strictly_sorted(ids@),
            lists_keys(ids@, records@, records@.len() as int, axis),
            groups@.len() == g,
            forall|m: int| 0 <= m < g ==> (#[trigger] groups@[m]).id == ids@[m],
            forall|m: int|
                0 <= m < g ==> (#[trigger] groups@[m]).values@ == values_of(records@, axis, key_of(&groups@[m].id)),
        decreases ids@.len() - g,
    {
        let id = ids[g].clone();
        let values = values_for(records, axis, &id);
        groups.push(Group { id, values });
        g = g + 1;
    }
    assert(group_ids(groups@) =~= ids@);
    groups
}

} // verus!
