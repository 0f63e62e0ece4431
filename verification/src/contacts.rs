//! The contact group table: one label for each numeric group identifier, the
//! label of the first channel that named the identifier.

use crate::numbers::{parse_u32, parsed_u32};
use crate::text::{leading_token, leading_token_of};
use vstd::prelude::*;

verus! {

/// The model of a contact group: its identifier and its label.
pub struct GroupView {
    pub id: u32,
    pub label: Seq<char>,
}

/// Some group of `t` has the identifier `id`.
pub open spec fn has_id(t: Seq<GroupView>, id: u32) -> bool {
    exists|i: int| 0 <= i < t.len() && #[trigger] t[i].id == id
}

/// The label that `t` holds for `id`.
pub open spec fn label_of(t: Seq<GroupView>, id: u32) -> Seq<char>
    recommends
        has_id(t, id),
{
    t[choose|i: int| 0 <= i < t.len() && #[trigger] t[i].id == id].label
}

/// No two groups of `t` share an identifier.
pub open spec fn distinct_ids(t: Seq<GroupView>) -> bool {
    forall|i: int, j: int|
        0 <= i < t.len() && 0 <= j < t.len() && i != j ==> #[trigger] t[i].id != #[trigger] t[j].id
}

/// The identifier that a group field names: the number that its leading
/// token writes, if the field is not empty and the token writes one.
pub open spec fn group_id_of(field: Seq<char>) -> Option<u32> {
    if field.len() == 0 {
        None
    } else {
        parsed_u32(leading_token_of(field))
    }
}

/// The table after a channel with the group field `field` was seen, and the
/// channel's contact label. A field that names no identifier leaves the table
/// alone and gives the empty label. An identifier that the table holds gives
/// the label held. A new identifier enters the table at the end with the
/// whole field as its label.
pub open spec fn resolved(t: Seq<GroupView>, field: Seq<char>) -> (Seq<GroupView>, Seq<char>) {
    match group_id_of(field) {
        None => (t, Seq::empty()),
        Some(id) => if has_id(t, id) {
            (t, label_of(t, id))
        } else {
            (t.push(GroupView { id: id, label: field }), field)
        },
    }
}

/// Seeing a channel keeps the identifiers distinct, keeps every group that
/// the table held, and adds at most one.
pub proof fn lemma_resolved_grows(t: Seq<GroupView>, field: Seq<char>)
    requires
        distinct_ids(t),
    ensures
        distinct_ids(resolved(t, field).0),
        t.len() <= resolved(t, field).0.len() <= t.len() + 1,
        resolved(t, field).0.subrange(0, t.len() as int) == t,
        forall|id: u32| has_id(t, id) ==> has_id(resolved(t, field).0, id) && label_of(
            resolved(t, field).0,
            id,
        ) == label_of(t, id),
{
    let r = resolved(t, field).0;
    assert(r.subrange(0, t.len() as int) =~= t);
    assert forall|id: u32| has_id(t, id) implies has_id(r, id) && label_of(r, id) == label_of(
        t,
        id,
    ) by {
        let i = choose|i: int| 0 <= i < t.len() && #[trigger] t[i].id == id;
        assert(r[i].id == id);
        let j = choose|j: int| 0 <= j < r.len() && #[trigger] r[j].id == id;
        if j != i {
            if j < t.len() {
                assert(t[j].id == r[j].id);
            } else {
                assert(has_id(t, r[j].id));
            }
        }
    }
    assert forall|i: int, j: int| 0 <= i < r.len() && 0 <= j < r.len() && i != j implies #[trigger]
        r[i].id != #[trigger] r[j].id by {
        if i < t.len() && j < t.len() {
            assert(t[i].id == r[i].id && t[j].id == r[j].id);
        } else if i < t.len() {
            assert(t[i].id == r[i].id);
        } else {
            assert(t[j].id == r[j].id);
        }
    }
}

/// First label wins: of two channels that name the same identifier, seen one
/// after the other, the second gets the label that the first got, whatever
/// the rest of its field says, and leaves the table as the first left it.
pub proof fn lemma_first_label_wins(t: Seq<GroupView>, first: Seq<char>, second: Seq<char>)
    requires
        distinct_ids(t),
        group_id_of(first) is Some,
        group_id_of(first) == group_id_of(second),
    ensures
        resolved(resolved(t, first).0, second).1 == resolved(t, first).1,
        resolved(resolved(t, first).0, second).0 == resolved(t, first).0,
{
    let id = group_id_of(first)->0;
    let t1 = resolved(t, first).0;
    lemma_resolved_grows(t, first);
    if !has_id(t, id) {
        assert(t1[t.len() as int].id == id);
        let j = choose|j: int| 0 <= j < t1.len() && #[trigger] t1[j].id == id;
        if j != t.len() {
            assert(t1[j].id != t1[t.len() as int].id);
        }
    }
}

/// A contact group: a numeric identifier and its label.
pub struct ContactGroup {
    pub id: u32,
    pub label: String,
}

impl View for ContactGroup {
    type V = GroupView;

    open spec fn view(&self) -> GroupView {
        GroupView { id: self.id, label: self.label@ }
    }
}

/// The table of contact groups, in the order in which their identifiers were
/// first seen. No identifier occurs twice.
pub struct ContactTable {
    groups: Vec<ContactGroup>,
}

impl View for ContactTable {
    type V = Seq<GroupView>;

    closed spec fn view(&self) -> Seq<GroupView> {
        Seq::new(self.groups@.len(), |i: int| self.groups@[i]@)
    }
}

impl ContactTable {
    /// The table's invariant.
    pub open spec fn wf(&self) -> bool {
        distinct_ids(self@)
    }

    /// An empty table.
    pub fn new() -> (t: ContactTable)
        ensures
            t@ == Seq::<GroupView>::empty(),
            t.wf(),
    {
        let t = ContactTable { groups: Vec::new() };
        assert(t@ =~= Seq::<GroupView>::empty());
        t
    }

    /// The number of groups.
    pub fn len(&self) -> (n: usize)
        ensures
            n == self@.len(),
    {
        self.groups.len()
    }

    /// The group at position `i`.
    pub fn group(&self, i: usize) -> (g: &ContactGroup)
        requires
            i < self@.len(),
        ensures
            g@ == self@[i as int],
    {
        &self.groups[i]
    }

    /// The label held for `id`, if the table holds the identifier.
    pub fn lookup(&self, id: u32) -> (r: Option<&String>)
        requires
            self.wf(),
        ensures
            r is Some <==> has_id(self@, id),
            r is Some ==> r->0@ == label_of(self@, id),
    {
        let mut i: usize = 0;
        while i < self.groups.len()
            invariant
                self.wf(),
                i <= self.groups@.len(),
                forall|j: int| 0 <= j < i ==> (#[trigger] self@[j]).id != id,
            decreases self.groups@.len() - i,
        {
            if self.groups[i].id == id {
                proof {
                    assert(self@[i as int].id == id);
                    let j = choose|j: int| 0 <= j < self@.len() && #[trigger] self@[j].id == id;
                    if j != i {
                        assert(self@[j].id != self@[i as int].id);
                    }
                }
                return Some(&self.groups[i].label);
            }
            i = i + 1;
        }
        None
    }

    /// The contact label of a channel with the group field `field`; a new
    /// identifier enters the table with the field as its label.
    pub fn resolve(&mut self, field: &str) -> (label: String)
        requires
            old(self).wf(),
        ensures
            final(self).wf(),
            final(self)@ == resolved(old(self)@, field@).0,
            label@ == resolved(old(self)@, field@).1,
    {
        proof {
            lemma_resolved_grows(self@, field@);
        }
        if field.unicode_len() == 0 {
            return String::new();
        }
        match parse_u32(leading_token(field)) {
            None => String::new(),
            Some(id) => {
                match self.lookup(id) {
                    Some(label) => label.clone(),
                    None => {
                        let ghost before = self@;
                        self.groups.push(ContactGroup { id, label: String::from_str(field) });
                        assert(self@ =~= before.push(GroupView { id: id, label: field@ }));
                        String::from_str(field)
                    },
                }
            },
        }
    }
}

} // verus!
