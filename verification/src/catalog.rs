//! The catalog of shapes: groups of entries, one group for each number of
//! tiles, in ascending order of that number.

use vstd::prelude::*;
use crate::error::GlobalIdError;
use crate::shape::Shape;

verus! {

/// One shape of the catalog under its global id.
#[derive(Clone, Copy, Debug, PartialEq, Eq, Structural)]
pub struct Entry {
    pub global_id: u64,
    pub shape: Shape,
}

/// The entries that the catalog lists under one number of tiles `t`, in the
/// order in which they were listed.
#[derive(Debug)]
pub struct Group {
    pub t: u32,
    pub entries: Vec<Entry>,
}

/// What a group holds.
pub struct GroupView {
    pub t: u32,
    pub entries: Seq<Entry>,
}

impl View for Group {
    type V = GroupView;

    open spec fn view(&self) -> GroupView {
        GroupView { t: self.t, entries: self.entries@ }
    }
}

/// The catalog. Its ids are meant to run from 1 on without a gap through
/// the groups in their order; a catalog that was read from a damaged store
/// may break that, and the lookups then report what they do not find.
#[derive(Debug)]
pub struct Catalog {
    pub groups: Vec<Group>,
}

impl View for Catalog {
    type V = Seq<GroupView>;

    /// The groups in catalog order.
    open spec fn view(&self) -> Seq<GroupView> {
        groups_view(self.groups@)
    }
}

/// What groups hold, each taken by its view.
pub open spec fn groups_view(groups: Seq<Group>) -> Seq<GroupView> {
    Seq::new(groups.len(), |i: int| groups[i]@)
}

/// The number of entries of all the groups together.
pub open spec fn total(groups: Seq<GroupView>) -> nat
    decreases groups.len(),
{
    if groups.len() == 0 {
        0
    } else {
        total(groups.drop_last()) + groups.last().entries.len()
    }
}

/// The first id of the range of group `i`: one more than the number of
/// entries in the groups before it.
pub open spec fn first_id(groups: Seq<GroupView>, i: int) -> nat {
    1 + total(groups.take(i))
}

/// Whether the groups stand in strictly ascending order of `t`.
pub open spec fn ascending(groups: Seq<GroupView>) -> bool {
    forall|i: int, j: int| 0 <= i < j < groups.len() ==> groups[i].t < groups[j].t
}

/// Whether the groups make a catalog: ascending, none of them empty, and
/// with so many entries that the id after the last one still fits.
pub open spec fn well_formed(groups: Seq<GroupView>) -> bool {
    &&& ascending(groups)
    &&& forall|i: int| 0 <= i < groups.len() ==> (#[trigger] groups[i]).entries.len() > 0
    &&& total(groups) < u64::MAX
}

/// The groups with one more entry under `t`: at the end of the group of
/// `t`, or in a new group at its place in the order.
pub open spec fn inserted(groups: Seq<GroupView>, t: u32, entry: Entry) -> Seq<GroupView>
    decreases groups.len(),
{
    if groups.len() == 0 || t < groups[0].t {
        seq![GroupView { t, entries: seq![entry] }] + groups
    } else if groups[0].t == t {
        seq![GroupView { t, entries: groups[0].entries.push(entry) }] + groups.skip(1)
    } else {
        seq![groups[0]] + inserted(groups.skip(1), t, entry)
    }
}

/// The place of `t` in the order of the groups: the number of groups at the
/// front whose `t` is smaller.
pub open spec fn place_of(groups: Seq<GroupView>, t: u32) -> int
    decreases groups.len(),
{
    if groups.len() > 0 && groups[0].t < t {
        1 + place_of(groups.skip(1), t)
    } else {
        0
    }
}

/// The entries listed under `t`; none where the catalog has no such group.
pub open spec fn entries_of(groups: Seq<GroupView>, t: u32) -> Seq<Entry> {
    let i = place_of(groups, t);
    if i < groups.len() && groups[i].t == t {
        groups[i].entries
    } else {
        Seq::empty()
    }
}

/// The first id of the range of `t`: one more than the number of entries
/// listed under smaller numbers of tiles.
pub open spec fn first_id_of(groups: Seq<GroupView>, t: u32) -> nat {
    first_id(groups, place_of(groups, t))
}

/// The last id of the range of `t`; one less than the first id where
/// nothing is listed under `t`.
pub open spec fn last_id_of(groups: Seq<GroupView>, t: u32) -> int {
    first_id_of(groups, t) + entries_of(groups, t).len() - 1
}

/// The index of the group whose range holds `id`, for an id from 1 to the
/// total.
pub open spec fn group_holding(groups: Seq<GroupView>, id: nat) -> int
    decreases groups.len(),
{
    if groups.len() == 0 {
        0
    } else if id <= total(groups.drop_last()) {
        group_holding(groups.drop_last(), id)
    } else {
        groups.len() - 1
    }
}

/// The test for an entry with the given id.
pub open spec fn has_id(id: u64) -> spec_fn(Entry) -> bool {
    |entry: Entry| entry.global_id == id
}

/// The test for an entry with the given shape.
pub open spec fn has_shape(shape: Shape) -> spec_fn(Entry) -> bool {
    |entry: Entry| entry.shape == shape
}

/// Whether `answer` is the first of the entries that passes the test, or
/// `None` where none of them does.
pub open spec fn is_first(
    entries: Seq<Entry>,
    wanted: spec_fn(Entry) -> bool,
    answer: Option<Entry>,
) -> bool {
    match answer {
        Some(entry) => exists|i: int|
            0 <= i < entries.len() && #[trigger] entries[i] == entry && wanted(entry) && forall|
                j: int,
            |
                0 <= j < i ==> !wanted(#[trigger] entries[j]),
        None => forall|i: int| 0 <= i < entries.len() ==> !wanted(#[trigger] entries[i]),
    }
}

/// A total splits at any group.
pub proof fn lemma_total_split(groups: Seq<GroupView>, i: int)
    requires
        0 <= i <= groups.len(),
    ensures
        total(groups) == total(groups.take(i)) + total(groups.skip(i)),
    decreases groups.len(),
{
    if i == groups.len() {
        assert(groups.take(i) =~= groups);
        assert(groups.skip(i) =~= Seq::<GroupView>::empty());
    } else {
        lemma_total_split(groups.drop_last(), i);
        assert(groups.drop_last().take(i) =~= groups.take(i));
        assert(groups.skip(i).drop_last() =~= groups.drop_last().skip(i));
    }
}

/// The total of one more group.
pub proof fn lemma_total_step(groups: Seq<GroupView>, i: int)
    requires
        0 <= i < groups.len(),
    ensures
        total(groups.take(i + 1)) == total(groups.take(i)) + groups[i].entries.len(),
        total(groups.take(i + 1)) <= total(groups),
{
    assert(groups.take(i + 1).drop_last() =~= groups.take(i));
    lemma_total_split(groups, i + 1);
}

/// The total of groups put one behind the other.
pub proof fn lemma_total_concat(front: Seq<GroupView>, back: Seq<GroupView>)
    ensures
        total(front + back) == total(front) + total(back),
{
    lemma_total_split(front + back, front.len() as int);
    assert((front + back).take(front.len() as int) =~= front);
    assert((front + back).skip(front.len() as int) =~= back);
}

/// The total of a single group.
pub proof fn lemma_total_one(group: GroupView)
    ensures
        total(seq![group]) == group.entries.len(),
{
    assert(seq![group].drop_last() =~= Seq::<GroupView>::empty());
    assert(total(seq![group].drop_last()) == 0);
}

/// Where the place of `t` in the order is known, `inserted` is an update of
/// the group there or the insertion of a new group there.
pub proof fn lemma_inserted_at(groups: Seq<GroupView>, t: u32, entry: Entry, i: int)
    requires
        0 <= i <= groups.len(),
        forall|j: int| 0 <= j < i ==> groups[j].t < t,
        i < groups.len() ==> t <= groups[i].t,
    ensures
        inserted(groups, t, entry) == if i < groups.len() && groups[i].t == t {
            groups.update(i, GroupView { t, entries: groups[i].entries.push(entry) })
        } else {
            groups.insert(i, GroupView { t, entries: seq![entry] })
        },
    decreases i,
{
    if i == 0 {
        if groups.len() == 0 || t < groups[0].t {
            assert(seq![GroupView { t, entries: seq![entry] }] + groups =~= groups.insert(
                0,
                GroupView { t, entries: seq![entry] },
            ));
        } else {
            assert(seq![GroupView { t, entries: groups[0].entries.push(entry) }] + groups.skip(1)
                =~= groups.update(0, GroupView { t, entries: groups[0].entries.push(entry) }));
        }
    } else {
        let rest = groups.skip(1);
        assert(groups[0].t < t);
        assert forall|j: int| 0 <= j < i - 1 implies rest[j].t < t by {
            assert(groups[j + 1].t < t);
        }
        lemma_inserted_at(rest, t, entry, i - 1);
        if i < groups.len() && groups[i].t == t {
            assert(seq![groups[0]] + rest.update(
                i - 1,
                GroupView { t, entries: rest[i - 1].entries.push(entry) },
            ) =~= groups.update(i, GroupView { t, entries: groups[i].entries.push(entry) }));
        } else {
            assert(seq![groups[0]] + rest.insert(i - 1, GroupView { t, entries: seq![entry] })
                =~= groups.insert(i, GroupView { t, entries: seq![entry] }));
        }
    }
}

/// One more entry keeps a catalog in order and makes its total one larger.
pub proof fn lemma_inserted_well_formed(groups: Seq<GroupView>, t: u32, entry: Entry, i: int)
    requires
        well_formed(groups),
        total(groups) + 1 < u64::MAX,
        0 <= i <= groups.len(),
        forall|j: int| 0 <= j < i ==> groups[j].t < t,
        i < groups.len() ==> t <= groups[i].t,
    ensures
        well_formed(inserted(groups, t, entry)),
        total(inserted(groups, t, entry)) == total(groups) + 1,
{
    lemma_inserted_at(groups, t, entry, i);
    let after = inserted(groups, t, entry);
    let front = groups.take(i);
    lemma_total_split(groups, i);
    if i < groups.len() && groups[i].t == t {
        let group = GroupView { t, entries: groups[i].entries.push(entry) };
        let back = groups.skip(i + 1);
        assert(after =~= front + seq![group] + back);
        assert(groups.skip(i) =~= seq![groups[i]] + back);
        lemma_total_concat(seq![groups[i]], back);
        lemma_total_one(groups[i]);
        lemma_total_concat(front + seq![group], back);
        lemma_total_concat(front, seq![group]);
        lemma_total_one(group);
        assert forall|a: int, b: int| 0 <= a < b < after.len() implies after[a].t < after[b].t by {
            assert(groups[a].t < groups[b].t);
        }
        assert forall|a: int| 0 <= a < after.len() implies (#[trigger] after[a]).entries.len()
            > 0 by {
            if a != i {
                assert(groups[a].entries.len() > 0);
            }
        }
    } else {
        let group = GroupView { t, entries: seq![entry] };
        let back = groups.skip(i);
        assert(after =~= front + seq![group] + back);
        lemma_total_concat(front + seq![group], back);
        lemma_total_concat(front, seq![group]);
        lemma_total_one(group);
        assert forall|a: int, b: int| 0 <= a < b < after.len() implies after[a].t < after[b].t by {
            if a < i && b > i {
                assert(groups[a].t < t);
                assert(groups[i].t <= groups[b - 1].t) by {
                    if i < b - 1 {
                        assert(groups[i].t < groups[b - 1].t);
                    }
                }
            } else if a < i && b < i {
                assert(groups[a].t < groups[b].t);
            } else if a > i {
                assert(groups[a - 1].t < groups[b - 1].t);
            } else if a == i {
                assert(groups[i].t <= groups[b - 1].t) by {
                    if i < b - 1 {
                        assert(groups[i].t < groups[b - 1].t);
                    }
                }
            }
        }
        assert forall|a: int| 0 <= a < after.len() implies (#[trigger] after[a]).entries.len()
            > 0 by {
            if a < i {
                assert(groups[a].entries.len() > 0);
            } else if a > i {
                assert(groups[a - 1].entries.len() > 0);
            }
        }
    }
}

impl Catalog {
    /// Whether the groups make a catalog.
    pub open spec fn wf(&self) -> bool {
        well_formed(self@)
    }

    /// The catalog without entries.
    pub fn new() -> (catalog: Catalog)
        ensures
            catalog@ == Seq::<GroupView>::empty(),
            catalog.wf(),
    {
        let catalog = Catalog { groups: Vec::new() };
        assert(catalog@ =~= Seq::<GroupView>::empty());
        catalog
    }

    /// The number of entries.
    pub fn len(&self) -> (n: u64)
        requires
            self.wf(),
        ensures
            n == total(self@),
    {
        let mut n: u64 = 0;
        let mut i: usize = 0;
        assert(self@.take(0) =~= Seq::<GroupView>::empty());
        while i < self.groups.len()
            invariant
                i <= self.groups@.len(),
                self.wf(),
                n == total(self@.take(i as int)),
            decreases self.groups@.len() - i,
        {
            proof {
                lemma_total_step(self@, i as int);
            }
            n = n + self.groups[i].entries.len() as u64;
            i += 1;
        }
        assert(self@.take(i as int) =~= self@);
        n
    }

    /// Lists one more entry under `t`.
    pub fn insert(&mut self, t: u32, entry: Entry)
        requires
            old(self).wf(),
            total(old(self)@) + 1 < u64::MAX,
        ensures
            final(self)@ == inserted(old(self)@, t, entry),
            final(self).wf(),
            total(final(self)@) == total(old(self)@) + 1,
    {
        let ghost before = self@;
        let mut i: usize = 0;
        while i < self.groups.len() && self.groups[i].t < t
            invariant
                i <= self.groups@.len(),
                self@ == before,
                forall|j: int| 0 <= j < i ==> before[j].t < t,
            decreases self.groups@.len() - i,
        {
            assert(before[i as int].t == self.groups[i as int].t);
            i += 1;
        }
        proof {
            if i < self.groups@.len() {
                assert(before[i as int].t == self.groups[i as int].t);
            }
            lemma_inserted_at(before, t, entry, i as int);
            lemma_inserted_well_formed(before, t, entry, i as int);
        }
        if i < self.groups.len() && self.groups[i].t == t {
            let mut group = self.groups.remove(i);
            group.entries.push(entry);
            self.groups.insert(i, group);
        } else {
            let mut entries = Vec::new();
            entries.push(entry);
            self.groups.insert(i, Group { t, entries });
        }
        assert(self@ =~= inserted(before, t, entry));
    }
}

/// Whether `answer` is what the lookup of `id` among the shapes with `t`
/// tiles gives: the first entry there that carries the id, where the id
/// lies in the range of `t`.
pub open spec fn answers_in_group(
    groups: Seq<GroupView>,
    t: u32,
    id: u64,
    answer: Result<Entry, GlobalIdError>,
) -> bool {
    match answer {
        Ok(entry) => {
            &&& first_id_of(groups, t) <= id <= last_id_of(groups, t)
            &&& is_first(entries_of(groups, t), has_id(id), Some(entry))
        },
        Err(GlobalIdError::BelowRange { id: given, first }) => {
            &&& given == id
            &&& first == first_id_of(groups, t)
            &&& id < first
        },
        Err(GlobalIdError::AboveRange { id: given, last }) => {
            &&& given == id
            &&& last == last_id_of(groups, t)
            &&& first_id_of(groups, t) <= id
            &&& id > last
        },
        Err(GlobalIdError::Unlisted { id: given }) => {
            &&& given == id
            &&& first_id_of(groups, t) <= id <= last_id_of(groups, t)
            &&& is_first(entries_of(groups, t), has_id(id), None)
        },
        Err(GlobalIdError::NonInteger) => false,
    }
}

/// Whether `answer` is what the lookup of `id` in the whole catalog gives:
/// the first entry that carries the id in the group whose range holds it,
/// where the id lies between 1 and the number of entries.
pub open spec fn answers(groups: Seq<GroupView>, id: u64, answer: Result<Entry, GlobalIdError>) -> bool {
    match answer {
        Ok(entry) => {
            &&& 1 <= id <= total(groups)
            &&& is_first(groups[group_holding(groups, id as nat)].entries, has_id(id), Some(entry))
        },
        Err(GlobalIdError::BelowRange { id: given, first }) => {
            &&& given == id
            &&& first == 1
            &&& id < 1
        },
        Err(GlobalIdError::AboveRange { id: given, last }) => {
            &&& given == id
            &&& last == total(groups)
            &&& id > last
        },
        Err(GlobalIdError::Unlisted { id: given }) => {
            &&& given == id
            &&& 1 <= id <= total(groups)
            &&& is_first(groups[group_holding(groups, id as nat)].entries, has_id(id), None)
        },
        Err(GlobalIdError::NonInteger) => false,
    }
}

/// The place of `t` is where the smaller groups end.
pub proof fn lemma_place_of(groups: Seq<GroupView>, t: u32, i: int)
    requires
        0 <= i <= groups.len(),
        forall|j: int| 0 <= j < i ==> groups[j].t < t,
        i < groups.len() ==> t <= groups[i].t,
    ensures
        place_of(groups, t) == i,
    decreases i,
{
    if i > 0 {
        let rest = groups.skip(1);
        assert(groups[0].t < t);
        assert forall|j: int| 0 <= j < i - 1 implies rest[j].t < t by {
            assert(groups[j + 1].t < t);
        }
        lemma_place_of(rest, t, i - 1);
    }
}

/// The group that holds an id is the one whose range the id lies in.
pub proof fn lemma_group_holding(groups: Seq<GroupView>, id: nat, i: int)
    requires
        0 <= i < groups.len(),
        total(groups.take(i)) < id <= total(groups.take(i + 1)),
    ensures
        group_holding(groups, id) == i,
    decreases groups.len(),
{
    let front = groups.drop_last();
    if i == groups.len() - 1 {
        assert(groups.take(i) =~= front);
    } else {
        assert(front.take(i) =~= groups.take(i));
        assert(front.take(i + 1) =~= groups.take(i + 1));
        lemma_total_split(front, i + 1);
        lemma_group_holding(front, id, i);
    }
}

/// The first entry that carries `id`.
pub fn find_id(entries: &Vec<Entry>, id: u64) -> (answer: Option<Entry>)
    ensures
        is_first(entries@, has_id(id), answer),
{
    let mut i: usize = 0;
    while i < entries.len()
        invariant
            i <= entries@.len(),
            forall|j: int| 0 <= j < i ==> entries[j].global_id != id,
        decreases entries@.len() - i,
    {
        if entries[i].global_id == id {
            assert(entries@[i as int] == entries[i as int]);
            return Some(entries[i]);
        }
        i += 1;
    }
    None
}

/// The first entry that has the shape `shape`.
pub fn find_shape(entries: &Vec<Entry>, shape: Shape) -> (answer: Option<Entry>)
    ensures
        is_first(entries@, has_shape(shape), answer),
{
    let mut i: usize = 0;
    while i < entries.len()
        invariant
            i <= entries@.len(),
            forall|j: int| 0 <= j < i ==> entries[j].shape != shape,
        decreases entries@.len() - i,
    {
        if entries[i].shape.mask == shape.mask {
            assert(entries@[i as int] == entries[i as int]);
            return Some(entries[i]);
        }
        i += 1;
    }
    None
}

impl Catalog {
    /// The place of `t` in the order of the groups, and the number of
    /// entries in the groups before that place.
    fn locate(&self, t: u32) -> (found: (usize, u64))
        requires
            self.wf(),
        ensures
            found.0 == place_of(self@, t),
            found.0 <= self@.len(),
            found.1 == total(self@.take(found.0 as int)),
    {
        let mut i: usize = 0;
        let mut before: u64 = 0;
        assert(self@.take(0) =~= Seq::<GroupView>::empty());
        while i < self.groups.len() && self.groups[i].t < t
            invariant
                i <= self.groups@.len(),
                self.wf(),
                before == total(self@.take(i as int)),
                forall|j: int| 0 <= j < i ==> self@[j].t < t,
            decreases self.groups@.len() - i,
        {
            proof {
                lemma_total_step(self@, i as int);
            }
            before = before + self.groups[i].entries.len() as u64;
            i += 1;
        }
        proof {
            lemma_place_of(self@, t, i as int);
        }
        (i, before)
    }

    /// The numbers of tiles under which the catalog lists entries, in
    /// ascending order.
    pub fn tile_counts(&self) -> (counts: Vec<u32>)
        ensures
            counts@.len() == self@.len(),
            forall|i: int| 0 <= i < self@.len() ==> counts[i] == self@[i].t,
    {
        let mut counts: Vec<u32> = Vec::new();
        let mut i: usize = 0;
        while i < self.groups.len()
            invariant
                i <= self.groups@.len(),
                counts@.len() == i,
                forall|j: int| 0 <= j < i ==> counts[j] == self@[j].t,
            decreases self.groups@.len() - i,
        {
            counts.push(self.groups[i].t);
            i += 1;
        }
        counts
    }

    /// The range of the ids of the shapes with `t` tiles, as its first and
    /// its last id. The range is empty, with the last id before the first,
    /// where the catalog lists nothing under `t`.
    pub fn id_range(&self, t: u32) -> (range: (u64, u64))
        requires
            self.wf(),
        ensures
            range.0 == first_id_of(self@, t),
            range.1 == last_id_of(self@, t),
    {
        let (i, before) = self.locate(t);
        proof {
            lemma_total_split(self@, i as int);
            if i < self@.len() {
                lemma_total_step(self@, i as int);
            }
        }
        if i < self.groups.len() && self.groups[i].t == t {
            (before + 1, before + self.groups[i].entries.len() as u64)
        } else {
            (before + 1, before)
        }
    }

    /// The entry that carries `id` among the shapes with `t` tiles.
    pub fn entry_in_group(&self, t: u32, id: u64) -> (answer: Result<Entry, GlobalIdError>)
        requires
            self.wf(),
        ensures
            answers_in_group(self@, t, id, answer),
    {
        let (first, last) = self.id_range(t);
        if id < first {
            return Err(GlobalIdError::BelowRange { id, first });
        }
        if id > last {
            return Err(GlobalIdError::AboveRange { id, last });
        }
        let (i, _) = self.locate(t);
        assert(i < self@.len() && self@[i as int].t == t);
        match find_id(&self.groups[i].entries, id) {
            Some(entry) => Ok(entry),
            None => Err(GlobalIdError::Unlisted { id }),
        }
    }

    /// The entry that carries `id`. The id is looked up in the group whose
    /// range, by the sizes of the groups, holds it.
    pub fn entry(&self, id: u64) -> (answer: Result<Entry, GlobalIdError>)
        requires
            self.wf(),
        ensures
            answers(self@, id, answer),
    {
        if id < 1 {
            return Err(GlobalIdError::BelowRange { id, first: 1 });
        }
        let mut i: usize = 0;
        let mut before: u64 = 0;
        assert(self@.take(0) =~= Seq::<GroupView>::empty());
        while i < self.groups.len()
            invariant
                i <= self.groups@.len(),
                self.wf(),
                before == total(self@.take(i as int)),
                before < id,
            decreases self.groups@.len() - i,
        {
            proof {
                lemma_total_step(self@, i as int);
            }
            let after = before + self.groups[i].entries.len() as u64;
            if id <= after {
                proof {
                    lemma_group_holding(self@, id as nat, i as int);
                    lemma_total_split(self@, i as int + 1);
                }
                return match find_id(&self.groups[i].entries, id) {
                    Some(entry) => Ok(entry),
                    None => Err(GlobalIdError::Unlisted { id }),
                };
            }
            before = after;
            i += 1;
        }
        assert(self@.take(i as int) =~= self@);
        Err(GlobalIdError::AboveRange { id, last: before })
    }

    /// The first entry among the shapes with `t` tiles that has the shape
    /// `shape`.
    pub fn shape_in_group(&self, t: u32, shape: Shape) -> (answer: Option<Entry>)
        requires
            self.wf(),
        ensures
            is_first(entries_of(self@, t), has_shape(shape), answer),
    {
        let (i, _) = self.locate(t);
        if i < self.groups.len() && self.groups[i].t == t {
            find_shape(&self.groups[i].entries, shape)
        } else {
            None
        }
    }
}

/// An id from 1 to the total lies in the range of the group that holds it.
pub proof fn lemma_group_holding_range(groups: Seq<GroupView>, id: nat)
    requires
        1 <= id <= total(groups),
    ensures
        0 <= group_holding(groups, id) < groups.len(),
        total(groups.take(group_holding(groups, id))) < id <= total(
            groups.take(group_holding(groups, id) + 1),
        ),
    decreases groups.len(),
{
    let front = groups.drop_last();
    if id <= total(front) {
        lemma_group_holding_range(front, id);
        let g = group_holding(front, id);
        assert(front.take(g) =~= groups.take(g));
        assert(front.take(g + 1) =~= groups.take(g + 1));
    } else {
        assert(groups.take(groups.len() - 1) =~= front);
        assert(groups.take(groups.len() as int) =~= groups);
    }
}

} // verus!
