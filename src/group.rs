use vstd::prelude::*;

use crate::text::lower_of;

verus! {

/// The rows that share one lower-cased category value, the header row first.
pub struct Group {
    /// The lower-cased category value.
    pub key: String,
    /// The category value as first seen, or a stand-in when it is empty.
    pub name: String,
    /// The header row, then the member rows in input order.
    pub rows: Vec<Vec<String>>,
}

/// A group as plain values.
pub struct GroupView {
    pub key: Seq<char>,
    pub name: Seq<char>,
    pub rows: Seq<Seq<Seq<char>>>,
}

impl View for Group {
    type V = GroupView;

    open spec fn view(&self) -> GroupView {
        GroupView { key: self.key@, name: self.name@, rows: self.rows.deep_view() }
    }
}

pub open spec fn groups_view(gs: Seq<Group>) -> Seq<GroupView> {
    gs.map_values(|g: Group| g@)
}

/// Whether a row passes the filter: the cell at the filter column equals the
/// expected value exactly. Without a filter every row passes.
pub open spec fn passes_filter(row: Seq<Seq<char>>, filter: Option<(int, Seq<char>)>) -> bool {
    match filter {
        Some((i, v)) => 0 <= i < row.len() && row[i] == v,
        None => true,
    }
}

/// The rows that pass the filter, in input order.
pub open spec fn passed(rows: Seq<Seq<Seq<char>>>, filter: Option<(int, Seq<char>)>) -> Seq<
    Seq<Seq<char>>,
>
    decreases rows.len(),
{
    if rows.len() == 0 {
        rows
    } else {
        let p = passed(rows.drop_last(), filter);
        if passes_filter(rows.last(), filter) {
            p.push(rows.last())
        } else {
            p
        }
    }
}

/// Whether the row has a cell at the category column.
pub open spec fn has_category(row: Seq<Seq<char>>, cat: int) -> bool {
    0 <= cat < row.len()
}

/// The group key of a row: its category value, lower-cased.
pub open spec fn key_of(row: Seq<Seq<char>>, cat: int) -> Seq<char> {
    lower_of(row[cat])
}

/// The name of a group first seen with category value `value`; `field` is the
/// category field's name.
pub open spec fn display_name(value: Seq<char>, field: Seq<char>) -> Seq<char> {
    if value.len() == 0 {
        "Empty_"@ + field
    } else {
        value
    }
}

pub open spec fn has_key(gs: Seq<GroupView>, k: Seq<char>) -> bool {
    exists|j: int| 0 <= j < gs.len() && gs[j].key == k
}

pub open spec fn key_index(gs: Seq<GroupView>, k: Seq<char>) -> int {
    choose|j: int| 0 <= j < gs.len() && gs[j].key == k
}

pub open spec fn distinct_keys(gs: Seq<GroupView>) -> bool {
    forall|a: int, b: int| 0 <= a < b < gs.len() ==> gs[a].key != gs[b].key
}

/// The groups after one more row of key `k` and category value `value`:
/// appended to the group of that key, or to a new group seeded with the header row.
pub open spec fn add_keyed(
    gs: Seq<GroupView>,
    row: Seq<Seq<char>>,
    k: Seq<char>,
    value: Seq<char>,
    header: Seq<Seq<char>>,
    field: Seq<char>,
) -> Seq<GroupView> {
    if has_key(gs, k) {
        let j = key_index(gs, k);
        gs.update(j, GroupView { rows: gs[j].rows.push(row), ..gs[j] })
    } else {
        gs.push(GroupView { key: k, name: display_name(value, field), rows: seq![header, row] })
    }
}

/// The groups after one more row; a row without a category cell changes nothing.
pub open spec fn add_row(
    gs: Seq<GroupView>,
    row: Seq<Seq<char>>,
    header: Seq<Seq<char>>,
    cat: int,
    field: Seq<char>,
) -> Seq<GroupView> {
    if !has_category(row, cat) {
        gs
    } else {
        add_keyed(gs, row, key_of(row, cat), row[cat], header, field)
    }
}

/// The groups of `rows` by category column `cat`, in order of first appearance.
pub open spec fn grouped(
    rows: Seq<Seq<Seq<char>>>,
    header: Seq<Seq<char>>,
    cat: int,
    field: Seq<char>,
) -> Seq<GroupView>
    decreases rows.len(),
{
    if rows.len() == 0 {
        Seq::empty()
    } else {
        add_row(grouped(rows.drop_last(), header, cat, field), rows.last(), header, cat, field)
    }
}

/// The rows, in input order, that have a category cell whose key is `k`.
pub open spec fn members(rows: Seq<Seq<Seq<char>>>, cat: int, k: Seq<char>) -> Seq<
    Seq<Seq<char>>,
>
    decreases rows.len(),
{
    if rows.len() == 0 {
        rows
    } else {
        let m = members(rows.drop_last(), cat, k);
        if has_category(rows.last(), cat) && key_of(rows.last(), cat) == k {
            m.push(rows.last())
        } else {
            m
        }
    }
}

/// The rows, in input order, that have a category cell.
pub open spec fn with_category(rows: Seq<Seq<Seq<char>>>, cat: int) -> Seq<Seq<Seq<char>>>
    decreases rows.len(),
{
    if rows.len() == 0 {
        rows
    } else {
        let m = with_category(rows.drop_last(), cat);
        if has_category(rows.last(), cat) {
            m.push(rows.last())
        } else {
            m
        }
    }
}

/// The number of member rows over all groups, header rows left out.
pub open spec fn total_rows(gs: Seq<GroupView>) -> int
    decreases gs.len(),
{
    if gs.len() == 0 {
        0
    } else {
        total_rows(gs.drop_last()) + gs.last().rows.len() - 1
    }
}

/// Whether `g` holds the header row and then exactly the rows of its key, in
/// input order, at least one, and is named after the first of them.
pub open spec fn group_matches(
    rows: Seq<Seq<Seq<char>>>,
    header: Seq<Seq<char>>,
    cat: int,
    field: Seq<char>,
    g: GroupView,
) -> bool {
    &&& members(rows, cat, g.key).len() > 0
    &&& g.rows == seq![header] + members(rows, cat, g.key)
    &&& g.name == display_name(members(rows, cat, g.key)[0][cat], field)
}

proof fn lemma_total_rows_update(gs: Seq<GroupView>, j: int, g: GroupView)
    requires
        0 <= j < gs.len(),
    ensures
        total_rows(gs.update(j, g)) == total_rows(gs) - gs[j].rows.len() + g.rows.len(),
    decreases gs.len(),
{
    let u = gs.update(j, g);
    if j < gs.len() - 1 {
        assert(u.drop_last() =~= gs.drop_last().update(j, g));
        lemma_total_rows_update(gs.drop_last(), j, g);
    } else {
        assert(u.drop_last() =~= gs.drop_last());
    }
}

/// Leaving out rows without a category cell leaves no more rows than there were.
pub proof fn lemma_with_category_len(rows: Seq<Seq<Seq<char>>>, cat: int)
    ensures
        with_category(rows, cat).len() <= rows.len(),
    decreases rows.len(),
{
    if rows.len() > 0 {
        lemma_with_category_len(rows.drop_last(), cat);
    }
}

/// The first groups hold no more member rows than all of them.
pub proof fn lemma_total_rows_prefix(gs: Seq<GroupView>, j: int)
    requires
        0 <= j <= gs.len(),
        forall|k: int| 0 <= k < gs.len() ==> (#[trigger] gs[k]).rows.len() >= 1,
    ensures
        0 <= total_rows(gs.take(j)) <= total_rows(gs),
    decreases gs.len(),
{
    if j == gs.len() {
        assert(gs.take(j) =~= gs);
        if gs.len() > 0 {
            lemma_total_rows_prefix(gs.drop_last(), j - 1);
            assert(gs.drop_last().take(j - 1) =~= gs.drop_last());
        }
    } else {
        lemma_total_rows_prefix(gs.drop_last(), j);
        assert(gs.drop_last().take(j) =~= gs.take(j));
    }
}

fn find_group(groups: &Vec<Group>, key: &String) -> (r: Option<usize>)
    ensures
        match r {
            Some(j) => j < groups@.len() && groups@[j as int].key@ == key@,
            None => forall|m: int| 0 <= m < groups@.len() ==> groups@[m].key@ != key@,
        },
{
    let mut j: usize = 0;
    while j < groups.len()
        invariant
            j <= groups@.len(),
            forall|m: int| 0 <= m < j ==> groups@[m].key@ != key@,
        decreases groups@.len() - j,
    {
        if groups[j].key == *key {
            return Some(j);
        }
        j = j + 1;
    }
    None
}

fn clone_row(row: &Vec<String>) -> (r: Vec<String>)
    ensures
        r.deep_view() == row.deep_view(),
{
    let r = row.clone();
    assert(r.deep_view() =~= row.deep_view());
    r
}

/// Adds `row`, whose key is `key` and whose category value is `value`, to the
/// group of that key, or starts a new group with `header` and `row`, named after
/// `value` (after `field` when `value` is empty). Tells whether a group was started.
pub fn insert_row(
    groups: &mut Vec<Group>,
    header: &Vec<String>,
    row: &Vec<String>,
    key: String,
    value: &String,
    field: &String,
) -> (started: bool)
    requires
        distinct_keys(groups_view(old(groups)@)),
    ensures
        groups_view(final(groups)@) == add_keyed(
            groups_view(old(groups)@),
            row.deep_view(),
            key@,
            value@,
            header.deep_view(),
            field@,
        ),
        distinct_keys(groups_view(final(groups)@)),
        started == !has_key(groups_view(old(groups)@), key@),
        final(groups)@.len() == old(groups)@.len() + if started {
            1int
        } else {
            0int
        },
{
    let ghost gv = groups_view(groups@);
    match find_group(groups, &key) {
        Some(j) => {
            assert(gv[j as int].key == key@);
            assert(key_index(gv, key@) == j as int);
            let mut g = groups.remove(j);
            g.rows.push(clone_row(row));
            let ghost g2 = g@;
            assert(g2.rows =~= gv[j as int].rows.push(row.deep_view()));
            groups.insert(j, g);
            assert(groups_view(groups@) =~= gv.update(j as int, g2));
            false
        },
        None => {
            let name = if value.as_str().is_empty() {
                let mut n = String::from_str("Empty_");
                n.append(field.as_str());
                n
            } else {
                value.clone()
            };
            let mut rows: Vec<Vec<String>> = Vec::new();
            rows.push(clone_row(header));
            rows.push(clone_row(row));
            let g = Group { key, name, rows };
            assert(g@.rows =~= seq![header.deep_view(), row.deep_view()]);
            groups.push(g);
            assert(groups_view(groups@) =~= gv.push(g@));
            true
        },
    }
}

/// What grouping gives, stated directly: keys are distinct; each group holds
/// the header row and then exactly the rows of its key, in input order, and is
/// named after the first of them; a key with no group has no rows; and the groups
/// hold, together, every row that has a category cell.
pub proof fn lemma_grouped(
    rows: Seq<Seq<Seq<char>>>,
    header: Seq<Seq<char>>,
    cat: int,
    field: Seq<char>,
)
    ensures
        distinct_keys(grouped(rows, header, cat, field)),
        forall|j: int|
            0 <= j < grouped(rows, header, cat, field).len() ==> group_matches(
                rows,
                header,
                cat,
                field,
                #[trigger] grouped(rows, header, cat, field)[j],
            ),
        forall|k: Seq<char>|
            !has_key(grouped(rows, header, cat, field), k) ==> #[trigger] members(
                rows,
                cat,
                k,
            ).len() == 0,
        total_rows(grouped(rows, header, cat, field)) == with_category(rows, cat).len(),
    decreases rows.len(),
{
    if rows.len() > 0 {
        let prev = rows.drop_last();
        let last = rows.last();
        lemma_grouped(prev, header, cat, field);
        let gp = grouped(prev, header, cat, field);
        let gs = grouped(rows, header, cat, field);
        if !has_category(last, cat) {
            assert forall|k: Seq<char>| members(rows, cat, k) == members(prev, cat, k) by {}
        } else {
            let k0 = key_of(last, cat);
            if has_key(gp, k0) {
                let j0 = key_index(gp, k0);
                let g0 = GroupView { rows: gp[j0].rows.push(last), ..gp[j0] };
                assert(gs == gp.update(j0, g0));
                lemma_total_rows_update(gp, j0, g0);
                assert forall|j: int| 0 <= j < gs.len() implies group_matches(rows, header, cat, field, #[trigger] gs[j]) by {
                    if j == j0 {
                        assert(members(rows, cat, k0) == members(prev, cat, k0).push(last));
                        assert(gs[j].rows =~= seq![header] + members(rows, cat, k0));
                    } else {
                        assert(gp[j].key != k0);
                        assert(members(rows, cat, gs[j].key) == members(prev, cat, gs[j].key));
                    }
                }
                assert forall|k: Seq<char>| !has_key(gs, k) implies #[trigger] members(
                    rows,
                    cat,
                    k,
                ).len() == 0 by {
                    assert(!has_key(gp, k)) by {
                        if has_key(gp, k) {
                            let w = choose|w: int| 0 <= w < gp.len() && gp[w].key == k;
                            assert(gs[w].key == k);
                        }
                    }
                    assert(k != k0);
                    assert(members(rows, cat, k) == members(prev, cat, k));
                }
            } else {
                let g0 = GroupView {
                    key: k0,
                    name: display_name(last[cat], field),
                    rows: seq![header, last],
                };
                assert(gs == gp.push(g0));
                assert(gs.drop_last() =~= gp);
                assert(members(prev, cat, k0).len() == 0);
                assert(members(rows, cat, k0) =~= seq![last]);
                assert forall|j: int| 0 <= j < gs.len() implies group_matches(rows, header, cat, field, #[trigger] gs[j]) by {
                    if j == gp.len() {
                        assert(gs[j].rows =~= seq![header] + members(rows, cat, k0));
                    } else {
                        assert(gp[j].key != k0);
                        assert(members(rows, cat, gs[j].key) == members(prev, cat, gs[j].key));
                    }
                }
                assert forall|k: Seq<char>| !has_key(gs, k) implies #[trigger] members(
                    rows,
                    cat,
                    k,
                ).len() == 0 by {
                    assert(!has_key(gp, k)) by {
                        if has_key(gp, k) {
                            let w = choose|w: int| 0 <= w < gp.len() && gp[w].key == k;
                            assert(gs[w].key == k);
                        }
                    }
                    assert(gs[gp.len() as int].key == k0);
                    assert(k != k0);
                    assert(members(rows, cat, k) == members(prev, cat, k));
                }
            }
        }
    }
}

/// Without a filter every row passes, so every row is read.
pub proof fn lemma_no_filter_passes_all(rows: Seq<Seq<Seq<char>>>)
    ensures
        passed(rows, None) == rows,
    decreases rows.len(),
{
    if rows.len() > 0 {
        lemma_no_filter_passes_all(rows.drop_last());
        assert(rows.drop_last().push(rows.last()) =~= rows);
    }
}

proof fn lemma_members_contains(rows: Seq<Seq<Seq<char>>>, cat: int, a: int)
    requires
        0 <= a < rows.len(),
        has_category(rows[a], cat),
    ensures
        members(rows, cat, key_of(rows[a], cat)).contains(rows[a]),
    decreases rows.len(),
{
    let m = members(rows, cat, key_of(rows[a], cat));
    if a == rows.len() - 1 {
        assert(m.last() == rows[a]);
    } else {
        let prev = rows.drop_last();
        lemma_members_contains(prev, cat, a);
        let pm = members(prev, cat, key_of(rows[a], cat));
        let w = choose|w: int| 0 <= w < pm.len() && pm[w] == rows[a];
        assert(m[w] == rows[a]);
    }
}

proof fn lemma_members_first(rows: Seq<Seq<Seq<char>>>, cat: int, a: int)
    requires
        0 <= a < rows.len(),
        has_category(rows[a], cat),
        forall|i: int|
            0 <= i < a && has_category(rows[i], cat) ==> key_of(#[trigger] rows[i], cat) != key_of(
                rows[a],
                cat,
            ),
    ensures
        members(rows, cat, key_of(rows[a], cat)).len() > 0,
        members(rows, cat, key_of(rows[a], cat))[0] == rows[a],
    decreases rows.len(),
{
    let k = key_of(rows[a], cat);
    if a == rows.len() - 1 {
        assert(members(rows.drop_last(), cat, k).len() == 0) by {
            lemma_no_members(rows.drop_last(), cat, k);
        }
    } else {
        lemma_members_first(rows.drop_last(), cat, a);
    }
}

proof fn lemma_no_members(rows: Seq<Seq<Seq<char>>>, cat: int, k: Seq<char>)
    requires
        forall|i: int|
            0 <= i < rows.len() && has_category(rows[i], cat) ==> key_of(#[trigger] rows[i], cat)
                != k,
    ensures
        members(rows, cat, k).len() == 0,
    decreases rows.len(),
{
    if rows.len() > 0 {
        lemma_no_members(rows.drop_last(), cat, k);
    }
}

/// Each group holds one row more than the rows classified into it: its table
/// has the header line and then one line for each of them.
pub proof fn lemma_group_table_lines(
    rows: Seq<Seq<Seq<char>>>,
    header: Seq<Seq<char>>,
    cat: int,
    field: Seq<char>,
    j: int,
)
    requires
        0 <= j < grouped(rows, header, cat, field).len(),
    ensures
        grouped(rows, header, cat, field)[j].rows.len() == 1 + members(
            rows,
            cat,
            grouped(rows, header, cat, field)[j].key,
        ).len(),
        grouped(rows, header, cat, field)[j].rows[0] == header,
{
    lemma_grouped(rows, header, cat, field);
    assert(group_matches(rows, header, cat, field, grouped(rows, header, cat, field)[j]));
}

/// Two rows whose category values are equal but for case land in one group,
/// the only one of their key; the group is named after the first row of that
/// key, which is the first such row in input order.
pub proof fn lemma_case_insensitive_grouping(
    rows: Seq<Seq<Seq<char>>>,
    header: Seq<Seq<char>>,
    cat: int,
    field: Seq<char>,
    a: int,
    b: int,
)
    requires
        0 <= a < rows.len(),
        0 <= b < rows.len(),
        has_category(rows[a], cat),
        has_category(rows[b], cat),
        lower_of(rows[a][cat]) == lower_of(rows[b][cat]),
    ensures
        ({
            let gs = grouped(rows, header, cat, field);
            exists|j: int|
                {
                    &&& 0 <= j < gs.len()
                    &&& #[trigger] gs[j].key == lower_of(rows[a][cat])
                    &&& forall|j2: int| 0 <= j2 < gs.len() && gs[j2].key == lower_of(rows[b][cat]) ==> j2 == j
                    &&& gs[j].rows.contains(rows[a])
                    &&& gs[j].rows.contains(rows[b])
                    &&& (forall|i: int|
                        0 <= i < a && has_category(rows[i], cat) ==> key_of(#[trigger] rows[i], cat)
                            != key_of(rows[a], cat)) ==> gs[j].name == display_name(
                        rows[a][cat],
                        field,
                    )
                }
        }),
{
    let gs = grouped(rows, header, cat, field);
    let k = key_of(rows[a], cat);
    lemma_grouped(rows, header, cat, field);
    lemma_members_contains(rows, cat, a);
    lemma_members_contains(rows, cat, b);
    let m = members(rows, cat, k);
    assert(m.len() > 0);
    assert(has_key(gs, k));
    let j = choose|j: int| 0 <= j < gs.len() && gs[j].key == k;
    assert(group_matches(rows, header, cat, field, gs[j]));
    assert(gs[j].rows == seq![header] + m);
    let wa = choose|w: int| 0 <= w < m.len() && m[w] == rows[a];
    assert(gs[j].rows[wa + 1] == rows[a]);
    let wb = choose|w: int| 0 <= w < m.len() && m[w] == rows[b];
    assert(gs[j].rows[wb + 1] == rows[b]);
    if forall|i: int|
        0 <= i < a && has_category(rows[i], cat) ==> key_of(#[trigger] rows[i], cat) != key_of(
            rows[a],
            cat,
        ) {
        lemma_members_first(rows, cat, a);
    }
    assert(gs[j].key == lower_of(rows[a][cat]));
}

/// A row without a category cell is in no group: every row of every group past
/// the header has that cell.
pub proof fn lemma_rows_without_category_excluded(
    rows: Seq<Seq<Seq<char>>>,
    header: Seq<Seq<char>>,
    cat: int,
    field: Seq<char>,
    j: int,
    k: int,
)
    requires
        0 <= j < grouped(rows, header, cat, field).len(),
        1 <= k < grouped(rows, header, cat, field)[j].rows.len(),
    ensures
        has_category(grouped(rows, header, cat, field)[j].rows[k], cat),
{
    lemma_grouped(rows, header, cat, field);
    let g = grouped(rows, header, cat, field)[j];
    assert(group_matches(rows, header, cat, field, g));
    lemma_members_have_category(rows, cat, g.key, k - 1);
}

proof fn lemma_members_have_category(rows: Seq<Seq<Seq<char>>>, cat: int, key: Seq<char>, i: int)
    requires
        0 <= i < members(rows, cat, key).len(),
    ensures
        has_category(members(rows, cat, key)[i], cat),
    decreases rows.len(),
{
    if rows.len() > 0 {
        let pm = members(rows.drop_last(), cat, key);
        if i < pm.len() {
            lemma_members_have_category(rows.drop_last(), cat, key, i);
        }
    }
}

} // verus!
