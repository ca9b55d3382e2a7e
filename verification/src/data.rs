//! A structured `Data` object storing the data that palette formats share:
//! the cells by address, and metadata for groups of cells.
use vstd::prelude::*;
use crate::address::{
    Address, Reference, ReferenceView, Page, Line, Column, PAGE_MAX, LINE_MAX, COLUMN_MAX,
    spec_page_of, spec_line_of, spec_wrapping_step, key, lemma_key_injective,
    lemma_wrapping_step_one, lemma_linear_fits,
};
use crate::address_map::AddressMap;
use crate::cell::Cell;
use crate::color::Color;
use crate::expression::Expression;
use crate::format::Format;
use crate::result::Error;

verus! {

////////////////////////////////////////////////////////////////////////////////
// MetaData
////////////////////////////////////////////////////////////////////////////////
/// Provides metadata about palette data.
#[derive(Debug)]
pub struct MetaData {
    /// A format-generated label for the item.
    pub format_label: Option<String>,
    /// A user-provided name for the item.
    pub name: Option<String>,
    /// An override to the default line count for this group.
    pub line_count: Line,
    /// An override to the default column count for this group.
    pub column_count: Column,
}

/// The model of `MetaData`: texts are their characters.
pub struct MetaView {
    /// A format-generated label for the item.
    pub format_label: Option<Seq<char>>,
    /// A user-provided name for the item.
    pub name: Option<Seq<char>>,
    /// The line count for this group.
    pub line_count: Line,
    /// The column count for this group.
    pub column_count: Column,
}

/// The characters of an optional text.
pub open spec fn opt_view(s: Option<String>) -> Option<Seq<char>> {
    match s {
        Some(t) => Some(t@),
        None => None,
    }
}

impl View for MetaData {
    type V = MetaView;

    open spec fn view(&self) -> MetaView {
        MetaView {
            format_label: opt_view(self.format_label),
            name: opt_view(self.name),
            line_count: self.line_count,
            column_count: self.column_count,
        }
    }
}

/// The metadata of a group that has none yet.
pub open spec fn default_meta() -> MetaView {
    MetaView { format_label: None, name: None, line_count: 0, column_count: 0 }
}

/// Copies an optional text.
fn copy_text(s: &Option<String>) -> (r: Option<String>)
    ensures
        opt_view(r) == opt_view(*s),
{
    match s {
        Some(t) => Some(t.clone()),
        None => None,
    }
}

impl MetaData {
    /// Returns a copy of the metadata.
    pub fn duplicate(&self) -> (r: MetaData)
        ensures
            r@ == self@,
    {
        MetaData {
            format_label: copy_text(&self.format_label),
            name: copy_text(&self.name),
            line_count: self.line_count,
            column_count: self.column_count,
        }
    }
}

impl Default for MetaData {
    fn default() -> (r: MetaData)
        ensures
            r@ == default_meta(),
    {
        MetaData { format_label: None, name: None, line_count: 0, column_count: 0 }
    }
}

////////////////////////////////////////////////////////////////////////////////
// MetaMap
////////////////////////////////////////////////////////////////////////////////
/// A map assigning metadata to references; each reference appears once.
pub struct MetaMap {
    /// The entries.
    entries: Vec<(Reference, MetaData)>,
}

impl MetaMap {
    /// No reference appears twice.
    #[verifier::type_invariant]
    spec fn distinct(self) -> bool {
        forall|i: int, j: int|
            0 <= i < self.entries@.len() && 0 <= j < self.entries@.len() && i != j ==> (
            #[trigger] self.entries@[i].0)@ != (#[trigger] self.entries@[j].0)@
    }

    /// The entries.
    closed spec fn pairs(self) -> Seq<(Reference, MetaData)> {
        self.entries@
    }

    /// The index of the entry for the reference `k`.
    closed spec fn index_of(self, k: ReferenceView) -> int {
        choose|i: int| 0 <= i < self.entries@.len() && self.entries@[i].0@ == k
    }

    /// The metadata of each reference.
    pub closed spec fn view(self) -> Map<ReferenceView, MetaView> {
        Map::new(
            |k: ReferenceView| exists|i: int| 0 <= i < self.entries@.len() && self.entries@[i].0@ == k,
            |k: ReferenceView| self.entries@[self.index_of(k)].1@,
        )
    }

    /// The view of the entry at `i` is the metadata of its reference.
    proof fn lemma_entry(self, i: int)
        requires
            self.distinct(),
            0 <= i < self.entries@.len(),
        ensures
            self@.contains_key(self.entries@[i].0@),
            self@[self.entries@[i].0@] == self.entries@[i].1@,
    {
        let k = self.entries@[i].0@;
        assert(exists|j: int| 0 <= j < self.entries@.len() && self.entries@[j].0@ == k);
        let j = self.index_of(k);
        assert(self.entries@[j].0@ == k);
    }

    /// Creates an empty map.
    pub fn new() -> (r: MetaMap)
        ensures
            r@ == Map::<ReferenceView, MetaView>::empty(),
    {
        let r = MetaMap { entries: Vec::new() };
        assert(r@ =~= Map::<ReferenceView, MetaView>::empty());
        r
    }

    /// Returns the position of the reference's entry.
    fn find(&self, k: &Reference) -> (r: Option<usize>)
        ensures
            match r {
                Some(i) => i < self.entries@.len() && self.entries@[i as int].0@ == k@,
                None => !self@.contains_key(k@),
            },
    {
        let mut i: usize = 0;
        while i < self.entries.len()
            invariant
                i <= self.entries.len(),
                forall|j: int| 0 <= j < i ==> (#[trigger] self.entries@[j].0)@ != k@,
            decreases self.entries.len() - i,
        {
            if self.entries[i].0.same_as(k) {
                return Some(i);
            }
            i = i + 1;
        }
        None
    }

    /// Returns whether the reference has metadata.
    pub fn contains_key(&self, k: &Reference) -> (r: bool)
        ensures
            r == self@.contains_key(k@),
    {
        proof {
            use_type_invariant(self);
        }
        match self.find(k) {
            Some(i) => {
                proof {
                    self.lemma_entry(i as int);
                }
                true
            },
            None => false,
        }
    }

    /// Returns the metadata of the reference.
    pub fn get(&self, k: &Reference) -> (r: Option<&MetaData>)
        ensures
            match r {
                Some(m) => self@.contains_key(k@) && m@ == self@[k@],
                None => !self@.contains_key(k@),
            },
    {
        proof {
            use_type_invariant(self);
        }
        match self.find(k) {
            Some(i) => {
                proof {
                    self.lemma_entry(i as int);
                }
                Some(&self.entries[i].1)
            },
            None => None,
        }
    }

    /// Sets the metadata of the reference.
    pub fn insert(&mut self, k: Reference, m: MetaData)
        ensures
            final(self)@ == old(self)@.insert(k@, m@),
    {
        proof {
            use_type_invariant(&*self);
        }
        let ghost old_entries = self.entries@;
        let ghost kv = k@;
        let ghost mv = m@;
        let mut entries = Vec::new();
        std::mem::swap(&mut entries, &mut self.entries);
        let ghost pos: int;
        match self.find_in(&entries, &k) {
            Some(i) => {
                entries.set(i, (k, m));
                proof {
                    pos = i as int;
                }
            },
            None => {
                entries.push((k, m));
                proof {
                    pos = old_entries.len() as int;
                }
            },
        }
        proof {
            assert(entries@[pos].0@ == kv && entries@[pos].1@ == mv);
            assert(forall|j: int| 0 <= j < entries@.len() && j != pos ==> j < old_entries.len()
                && #[trigger] entries@[j] == old_entries[j]);
            assert forall|i: int, j: int|
                0 <= i < entries@.len() && 0 <= j < entries@.len() && i != j implies (
                #[trigger] entries@[i].0)@ != (#[trigger] entries@[j].0)@ by {
                if i != pos && j != pos {
                    assert(entries@[i] == old_entries[i]);
                    assert(entries@[j] == old_entries[j]);
                } else if i == pos {
                    assert(entries@[j] == old_entries[j]);
                    if pos < old_entries.len() {
                        assert(old_entries[pos].0@ == kv);
                    }
                } else {
                    assert(entries@[i] == old_entries[i]);
                    if pos < old_entries.len() {
                        assert(old_entries[pos].0@ == kv);
                    }
                }
            }
        }
        self.entries = entries;
        proof {
            assert(self.distinct());
            assert forall|key: ReferenceView| #[trigger] self@.contains_key(key) == old(self)@.insert(kv, mv).contains_key(key) by {
                if self@.contains_key(key) {
                    let j = choose|j: int| 0 <= j < self.entries@.len() && self.entries@[j].0@ == key;
                    if key != kv {
                        assert(j != pos);
                        assert(old_entries[j].0@ == key);
                        old(self).lemma_entry(j);
                    }
                }
                if old(self)@.contains_key(key) && key != kv {
                    let j = choose|j: int| 0 <= j < old_entries.len() && old_entries[j].0@ == key;
                    assert(j != pos);
                    assert(self.entries@[j] == old_entries[j]);
                    self.lemma_entry(j);
                }
                if key == kv {
                    self.lemma_entry(pos);
                }
            }
            assert forall|key: ReferenceView| #[trigger] self@.contains_key(key) implies self@[key] == old(self)@.insert(kv, mv)[key] by {
                let j = choose|j: int| 0 <= j < self.entries@.len() && self.entries@[j].0@ == key;
                self.lemma_entry(j);
                if key != kv {
                    assert(j != pos);
                    assert(self.entries@[j] == old_entries[j]);
                    old(self).lemma_entry(j);
                }
            }
            assert(self@ =~= old(self)@.insert(kv, mv));
        }
    }

    /// Returns the position of the reference's entry among `entries`.
    fn find_in(&self, entries: &Vec<(Reference, MetaData)>, k: &Reference) -> (r: Option<usize>)
        ensures
            match r {
                Some(i) => i < entries@.len() && entries@[i as int].0@ == k@,
                None => forall|j: int| 0 <= j < entries@.len() ==> (#[trigger] entries@[j].0)@ != k@,
            },
    {
        let mut i: usize = 0;
        while i < entries.len()
            invariant
                i <= entries.len(),
                forall|j: int| 0 <= j < i ==> (#[trigger] entries@[j].0)@ != k@,
            decreases entries.len() - i,
        {
            if entries[i].0.same_as(k) {
                return Some(i);
            }
            i = i + 1;
        }
        None
    }
}

////////////////////////////////////////////////////////////////////////////////
// Data
////////////////////////////////////////////////////////////////////////////////
/// The model of `Data`.
pub struct DataModel {
    /// The expression of each occupied cell.
    pub cells: Map<Address, Expression>,
    /// The named references.
    pub names: Seq<(Seq<char>, ReferenceView)>,
    /// The metadata of each group.
    pub metadata: Map<ReferenceView, MetaView>,
    /// The maximum number of pages.
    pub maximum_page_count: Page,
    /// The default number of lines in each page.
    pub default_line_count: Line,
    /// The default number of columns in each line.
    pub default_column_count: Column,
    /// The format that prepares new pages.
    pub page_hook: Format,
    /// The format that prepares new lines.
    pub line_hook: Format,
}

impl DataModel {
    /// The metadata of a group, or the default for a group without any.
    pub open spec fn entry(self, k: ReferenceView) -> MetaView {
        if self.metadata.contains_key(k) {
            self.metadata[k]
        } else {
            default_meta()
        }
    }

    /// The data with the metadata of a group replaced.
    pub open spec fn with_entry(self, k: ReferenceView, e: MetaView) -> DataModel {
        DataModel { metadata: self.metadata.insert(k, e), ..self }
    }

    /// The data with the label of a group set.
    pub open spec fn with_label(self, k: ReferenceView, label: Seq<char>) -> DataModel {
        let e = self.entry(k);
        self.with_entry(
            k,
            MetaView {
                format_label: Some(label),
                name: e.name,
                line_count: e.line_count,
                column_count: e.column_count,
            },
        )
    }

    /// The data with the name of a group set.
    pub open spec fn with_name(self, k: ReferenceView, name: Seq<char>) -> DataModel {
        let e = self.entry(k);
        self.with_entry(
            k,
            MetaView {
                format_label: e.format_label,
                name: Some(name),
                line_count: e.line_count,
                column_count: e.column_count,
            },
        )
    }

    /// The data with the line count of a group set.
    pub open spec fn with_line_count(self, k: ReferenceView, n: Line) -> DataModel {
        let e = self.entry(k);
        self.with_entry(
            k,
            MetaView {
                format_label: e.format_label,
                name: e.name,
                line_count: n,
                column_count: e.column_count,
            },
        )
    }

    /// The data with the column count of a group set.
    pub open spec fn with_column_count(self, k: ReferenceView, n: Column) -> DataModel {
        let e = self.entry(k);
        self.with_entry(
            k,
            MetaView {
                format_label: e.format_label,
                name: e.name,
                line_count: e.line_count,
                column_count: n,
            },
        )
    }

    /// The number of lines of the page holding `a`.
    pub open spec fn line_count(self, a: Address) -> Line {
        let k = spec_page_of(a)@;
        if self.metadata.contains_key(k) {
            self.metadata[k].line_count
        } else {
            self.default_line_count
        }
    }

    /// The number of columns of the line holding `a`.
    pub open spec fn column_count(self, a: Address) -> Column {
        let k = spec_line_of(a)@;
        if self.metadata.contains_key(k) {
            self.metadata[k].column_count
        } else {
            self.default_column_count
        }
    }

    /// The address lies within the bounds of the palette.
    pub open spec fn valid(self, a: Address) -> bool {
        a.page < self.maximum_page_count && a.line < self.line_count(a) && a.column
            < self.column_count(a)
    }

    /// The address one cell after `a`.
    pub open spec fn step(self, a: Address) -> Address {
        spec_wrapping_step(
            a,
            1,
            self.maximum_page_count as int,
            self.line_count(a) as int,
            self.column_count(a) as int,
        )
    }

    /// The color of the cell at `a`: its fixed color, or the color of the
    /// cell it watches, followed on to a fixed color; `None` for a missing or
    /// empty cell, for a watcher whose references lead round in a loop, and
    /// for a ramp step, whose blended color is not computed here.
    pub open spec fn color_of(self, a: Address) -> Option<Color> {
        if exists|f: nat| #[trigger] resolve(self.cells, a, f) is Some {
            resolve(self.cells, a, choose|f: nat| #[trigger] resolve(self.cells, a, f) is Some)
        } else {
            None
        }
    }

    /// The cell at `a` generates a color.
    pub open spec fn colored(self, a: Address) -> bool {
        generates(self.cells, a, Set::empty())
    }

    /// The data after the page group of `a` is prepared, if it was not yet.
    pub open spec fn page_ready(self, a: Address) -> DataModel {
        let pg = spec_page_of(a);
        if self.metadata.contains_key(pg@) {
            self
        } else {
            self.page_hook.spec_prepare_new_page(
                self.with_line_count(pg@, self.default_line_count),
                pg,
            )
        }
    }

    /// The data after the line group of `a` is prepared, if it was not yet.
    pub open spec fn line_ready(self, a: Address) -> DataModel {
        let lg = spec_line_of(a);
        if self.metadata.contains_key(lg@) {
            self
        } else {
            self.line_hook.spec_prepare_new_line(
                self.with_column_count(lg@, self.default_column_count),
                lg,
            )
        }
    }

    /// The data after the groups of `a` are prepared: first its page, then
    /// its line.
    pub open spec fn prepared(self, a: Address) -> DataModel {
        self.page_ready(a).line_ready(a)
    }

    /// The outcome of preparing `a`: an `InvalidAddress` error if `a` is out of
    /// bounds once prepared.
    pub open spec fn prepare(self, a: Address) -> (Result<(), Error>, DataModel) {
        let d = self.prepared(a);
        (if d.valid(a) { Ok(()) } else { Err(Error::InvalidAddress(a)) }, d)
    }

    /// The outcome of creating a cell at `a`: a cell already there is kept.
    pub open spec fn create(self, a: Address) -> (Result<(), Error>, DataModel) {
        if self.cells.contains_key(a) {
            (Ok(()), self)
        } else {
            let (r, d) = self.prepare(a);
            match r {
                Ok(_) => (Ok(()), DataModel { cells: d.cells.insert(a, Expression::Empty), ..d }),
                Err(e) => (Err(e), d),
            }
        }
    }
}

/// The cell at `a` generates a color: it holds a fixed color, or refers to
/// cells that all do, followed on without coming back to a cell of `path`,
/// the cells passed on the way.
pub open spec fn generates(cells: Map<Address, Expression>, a: Address, path: Set<Address>) -> bool
    decreases cells.dom().difference(path).len(),
    when cells.dom().finite()
{
    if !cells.contains_key(a) || path.contains(a) {
        false
    } else {
        proof {
            lemma_path_grows(cells.dom(), path, a);
        }
        match cells[a] {
            Expression::Empty => false,
            Expression::Color(_) => true,
            Expression::Watch(b) => generates(cells, b, path.insert(a)),
            Expression::Ramp { from, to, .. } => generates(cells, from, path.insert(a)) && generates(
                cells,
                to,
                path.insert(a),
            ),
        }
    }
}

/// Passing one more cell of a finite domain leaves fewer cells to pass.
pub proof fn lemma_path_grows(dom: Set<Address>, path: Set<Address>, a: Address)
    requires
        dom.finite(),
        dom.contains(a),
        !path.contains(a),
    ensures
        dom.difference(path.insert(a)).len() < dom.difference(path).len(),
{
    assert(dom.difference(path.insert(a)) =~= dom.difference(path).remove(a));
    vstd::set_lib::lemma_set_subset_finite(dom, dom.difference(path));
}

/// The set of a sequence with one more element has that element too.
pub proof fn lemma_push_to_set(s: Seq<Address>, x: Address)
    ensures
        s.push(x).to_set() == s.to_set().insert(x),
{
    assert forall|y: Address| #[trigger] s.push(x).to_set().contains(y) <==> s.to_set().insert(x).contains(y) by {
        if s.contains(y) {
            let i = choose|i: int| 0 <= i < s.len() && s[i] == y;
            assert(s.push(x)[i] == y);
        }
        if y == x {
            assert(s.push(x)[s.len() as int] == x);
        }
        if s.push(x).contains(y) {
            let i = choose|i: int| 0 <= i < s.push(x).len() && s.push(x)[i] == y;
            if i < s.len() {
                assert(s[i] == y);
            }
        }
    }
    assert(s.push(x).to_set() =~= s.to_set().insert(x));
}

/// The color the cell at `a` generates, following watchers at most `fuel`
/// times.
pub open spec fn resolve(cells: Map<Address, Expression>, a: Address, fuel: nat) -> Option<Color>
    decreases fuel,
{
    if fuel == 0 || !cells.contains_key(a) {
        None
    } else {
        match cells[a] {
            Expression::Watch(b) => resolve(cells, b, (fuel - 1) as nat),
            e => e.spec_color(),
        }
    }
}

/// More fuel keeps a color that was found.
pub proof fn lemma_resolve_more(cells: Map<Address, Expression>, a: Address, fuel: nat, more: nat)
    requires
        resolve(cells, a, fuel) is Some,
        fuel <= more,
    ensures
        resolve(cells, a, more) == resolve(cells, a, fuel),
    decreases fuel,
{
    if let Expression::Watch(b) = cells[a] {
        lemma_resolve_more(cells, b, (fuel - 1) as nat, (more - 1) as nat);
    }
}

/// A watcher has the color of the cell it watches.
pub proof fn lemma_watch_color(d: DataModel, t: Address, w: Address)
    requires
        d.cells.contains_key(t),
        d.cells[t] == Expression::Watch(w),
    ensures
        d.color_of(t) == d.color_of(w),
{
    if exists|f: nat| #[trigger] resolve(d.cells, w, f) is Some {
        let fw = choose|f: nat| #[trigger] resolve(d.cells, w, f) is Some;
        assert(resolve(d.cells, t, fw + 1) == resolve(d.cells, w, fw));
        let ft = choose|f: nat| #[trigger] resolve(d.cells, t, f) is Some;
        assert(ft > 0);
        assert(resolve(d.cells, t, ft) == resolve(d.cells, w, (ft - 1) as nat));
        if fw <= ft - 1 {
            lemma_resolve_more(d.cells, w, fw, (ft - 1) as nat);
        } else {
            lemma_resolve_more(d.cells, w, (ft - 1) as nat, fw);
        }
    } else {
        assert forall|f: nat| !(#[trigger] resolve(d.cells, t, f) is Some) by {
            if f > 0 {
                assert(resolve(d.cells, t, f) == resolve(d.cells, w, (f - 1) as nat));
            }
        }
    }
}

/// A cell with a fixed color has that color; an empty or missing cell has
/// none.
pub proof fn lemma_own_color(d: DataModel, a: Address)
    requires
        !(d.cells.contains_key(a) && d.cells[a] is Watch),
    ensures
        d.color_of(a) == (if d.cells.contains_key(a) {
            d.cells[a].spec_color()
        } else {
            None
        }),
{
    if d.cells.contains_key(a) && d.cells[a].spec_color() is Some {
        assert(resolve(d.cells, a, 1) is Some);
        let f = choose|f: nat| #[trigger] resolve(d.cells, a, f) is Some;
        lemma_resolve_more(d.cells, a, 1, f);
    }
}

/// Returns the index of the first occurrence of `a` in `v`, if there is one.
fn position_of(v: &Vec<Address>, a: Address) -> (r: Option<usize>)
    ensures
        match r {
            Some(j) => j < v@.len() && v@[j as int] == a,
            None => forall|k: int| 0 <= k < v@.len() ==> v@[k] != a,
        },
{
    let mut j: usize = 0;
    while j < v.len()
        invariant
            j <= v@.len(),
            forall|k: int| 0 <= k < j ==> v@[k] != a,
        decreases v@.len() - j,
    {
        if v[j] == a {
            return Some(j);
        }
        j = j + 1;
    }
    None
}

/// A chain of watchers, each watching the next and the last watching `cur`,
/// that passes `cur` on the way leads round in a loop and reaches no color.
proof fn lemma_chain_loop(cells: Map<Address, Expression>, chain: Seq<Address>, j: int, cur: Address)
    requires
        0 <= j < chain.len(),
        chain[j] == cur,
        forall|i: int| 0 <= i < chain.len() ==> cells.contains_key(#[trigger] chain[i]),
        forall|i: int|
            0 <= i < chain.len() ==> cells[#[trigger] chain[i]] == Expression::Watch(
                if i + 1 < chain.len() {
                    chain[i + 1]
                } else {
                    cur
                },
            ),
    ensures
        forall|f: nat| !(#[trigger] resolve(cells, cur, f) is Some),
{
    let lp = chain.subrange(j, chain.len() as int);
    assert forall|i: int| 0 <= i < lp.len() implies cells.contains_key(#[trigger] lp[i])
        && cells[lp[i]] == Expression::Watch(
        if i + 1 < lp.len() {
            lp[i + 1]
        } else {
            lp[0]
        },
    ) by {
        assert(lp[i] == chain[j + i]);
    }
    assert forall|f: nat| !(#[trigger] resolve(cells, cur, f) is Some) by {
        lemma_loop_fuel(cells, lp, f);
        assert(lp[0] == cur);
    }
}

/// Watchers that lead round in a loop, each watching the next and the last
/// watching the first, never reach a color, with any fuel.
proof fn lemma_loop_fuel(cells: Map<Address, Expression>, s: Seq<Address>, f: nat)
    requires
        s.len() > 0,
        forall|i: int|
            0 <= i < s.len() ==> cells.contains_key(#[trigger] s[i]) && cells[s[i]]
                == Expression::Watch(if i + 1 < s.len() { s[i + 1] } else { s[0] }),
    ensures
        forall|i: int| 0 <= i < s.len() ==> resolve(cells, #[trigger] s[i], f) is None,
    decreases f,
{
    if f > 0 {
        lemma_loop_fuel(cells, s, (f - 1) as nat);
        assert forall|i: int| 0 <= i < s.len() implies resolve(cells, #[trigger] s[i], f) is None by {
            if i + 1 < s.len() {
                assert(resolve(cells, s[i + 1], (f - 1) as nat) is None);
            } else {
                assert(resolve(cells, s[0], (f - 1) as nat) is None);
            }
        }
    }
}

/// The number of cells from `s` forward to `a` in address order, wrapping
/// from the last address of the address space to the first.
pub open spec fn cyclic_distance(s: Address, a: Address) -> int {
    if key(a) >= key(s) {
        key(a) - key(s)
    } else {
        key(a) - key(s) + 4294967296
    }
}

/// Distances from `s` are below the size of the address space, and tell
/// addresses apart.
pub proof fn lemma_cyclic_distance(s: Address, a: Address, b: Address)
    ensures
        0 <= cyclic_distance(s, a) < 4294967296,
        cyclic_distance(s, s) == 0,
        cyclic_distance(s, a) == cyclic_distance(s, b) <==> a == b,
{
    lemma_key_injective(a, b);
}

/// Returns the number of cells from `s` forward to `a` in address order,
/// wrapping from the last address of the address space to the first.
pub fn distance_from(s: &Address, a: &Address) -> (r: u64)
    ensures
        r == cyclic_distance(*s, *a),
{
    let ks: u64 = s.page as u64 * 65536 + s.line as u64 * 256 + s.column as u64;
    let ka: u64 = a.page as u64 * 65536 + a.line as u64 * 256 + a.column as u64;
    if ka >= ks {
        ka - ks
    } else {
        ka + 4294967296 - ks
    }
}

impl DataModel {
    /// Every page has lines, every line has columns, and there are pages.
    pub open spec fn counts_positive(self) -> bool {
        &&& self.maximum_page_count > 0
        &&& forall|a: Address| #[trigger] self.line_count(a) > 0
        &&& forall|a: Address| #[trigger] self.column_count(a) > 0
    }

    /// `x` is the first address from `s` on, in cyclic address order, that lies
    /// within bounds and holds no color.
    pub open spec fn first_free_at(self, s: Address, x: Address) -> bool {
        &&& self.valid(x)
        &&& !self.colored(x)
        &&& forall|y: Address|
            #[trigger] self.valid(y) && cyclic_distance(s, y) < cyclic_distance(s, x)
                ==> self.colored(y)
    }

    /// The outcome of searching for a free address from `s` on: `s` is
    /// prepared first; then the first free address in cyclic order, or a
    /// `MaxCellLimitExceeded` error if every address within bounds is
    /// colored.
    pub open spec fn first_free(self, s: Address) -> (Result<Address, Error>, DataModel) {
        let (r, d) = self.prepare(s);
        match r {
            Err(e) => (Err(e), d),
            Ok(_) => if exists|x: Address| d.valid(x) && !d.colored(x) {
                (Ok(choose|x: Address| d.first_free_at(s, x)), d)
            } else {
                (Err(Error::MaxCellLimitExceeded), d)
            },
        }
    }

    /// Preparing an address keeps the cells and settings, and keeps the counts
    /// positive.
    pub proof fn lemma_prepared(self, a: Address)
        requires
            self.counts_positive(),
        ensures
            self.prepared(a).counts_positive(),
            self.prepared(a).cells == self.cells,
            self.prepared(a).maximum_page_count == self.maximum_page_count,
            self.prepared(a).default_line_count == self.default_line_count,
            self.prepared(a).default_column_count == self.default_column_count,
            self.prepared(a).page_hook == self.page_hook,
            self.prepared(a).line_hook == self.line_hook,
            forall|k: ReferenceView| #[trigger] self.metadata.contains_key(k)
                ==> self.prepared(a).metadata.contains_key(k)
                && self.prepared(a).metadata[k] == self.metadata[k],
            self.prepared(a).metadata.contains_key(spec_page_of(a)@),
            self.prepared(a).metadata.contains_key(spec_line_of(a)@),
            self.prepared(a).extends(self),
            self.prepared(a).names == self.names,
    {
        let d1 = self.page_ready(a);
        let d2 = d1.line_ready(a);
        assert forall|b: Address| #[trigger] d1.line_count(b) > 0 by {
            assert(self.line_count(b) > 0);
        }
        assert forall|b: Address| #[trigger] d1.column_count(b) > 0 by {
            assert(self.column_count(b) > 0);
        }
        assert forall|b: Address| #[trigger] d2.line_count(b) > 0 by {
            assert(d1.line_count(b) > 0);
        }
        assert forall|b: Address| #[trigger] d2.column_count(b) > 0 by {
            assert(d1.column_count(b) > 0);
        }
    }

    /// With the default hooks, preparing an address leaves the bounds of
    /// every address as they were.
    pub proof fn lemma_default_prepared_valid(self, a: Address)
        requires
            self.page_hook is Default,
            self.line_hook is Default,
        ensures
            forall|b: Address| #[trigger] self.prepared(a).valid(b) == self.valid(b),
    {
        let d1 = self.page_ready(a);
        let d2 = d1.line_ready(a);
        assert forall|b: Address| #[trigger] d2.valid(b) == self.valid(b) by {
            assert(spec_page_of(b)@ != spec_line_of(a)@);
            assert(spec_line_of(b)@ != spec_page_of(a)@);
            assert(d1.line_count(b) == self.line_count(b));
            assert(d1.column_count(b) == self.column_count(b));
            assert(d2.line_count(b) == d1.line_count(b));
            assert(d2.column_count(b) == d1.column_count(b));
        }
    }

    /// One step from an address within bounds moves to the next address
    /// within bounds in cyclic order from `s`: no address within bounds lies
    /// between them, and the step returns to `s` only after all of them.
    pub proof fn lemma_step(self, s: Address, a: Address)
        requires
            self.counts_positive(),
            self.valid(s),
            self.valid(a),
        ensures
            self.valid(self.step(a)),
            self.step(a) == s || cyclic_distance(s, a) < cyclic_distance(s, self.step(a)),
            forall|b: Address|
                #[trigger] self.valid(b) && (self.step(a) == s || cyclic_distance(s, b)
                    < cyclic_distance(s, self.step(a))) ==> cyclic_distance(s, b)
                    <= cyclic_distance(s, a),
    {
        let pages = self.maximum_page_count as int;
        let lines = self.line_count(a) as int;
        let columns = self.column_count(a) as int;
        lemma_wrapping_step_one(a, pages, lines, columns);
        let n = self.step(a);
        assert(self.line_count(n) > 0 && self.column_count(n) > 0);
        if a.column + 1 < columns {
            assert(self.line_count(n) == lines && self.column_count(n) == columns);
        } else if a.line + 1 < lines {
            assert(self.line_count(n) == lines);
        }
        assert(self.valid(n));
        let wrapped = key(n) <= key(a);
        assert forall|b: Address| #[trigger] self.valid(b) implies (if wrapped {
            key(b) <= key(a)
        } else {
            key(b) <= key(a) || key(n) <= key(b)
        }) by {
            if b.page == a.page {
                assert(self.line_count(b) == lines);
                if b.line == a.line {
                    assert(self.column_count(b) == columns);
                }
            }
        }
        assert(wrapped ==> n == (Address { page: 0, line: 0, column: 0 }));
        lemma_key_injective(n, s);
        assert forall|b: Address|
            #[trigger] self.valid(b) && (n == s || cyclic_distance(s, b) < cyclic_distance(s, n))
                implies cyclic_distance(s, b) <= cyclic_distance(s, a) by {
            lemma_key_injective(b, s);
        }
    }

    /// The data with the cell at `a` holding `e`.
    pub open spec fn with_cell(self, a: Address, e: Expression) -> DataModel {
        DataModel { cells: self.cells.insert(a, e), ..self }
    }

    /// The data without a cell at `a`.
    pub open spec fn without_cell(self, a: Address) -> DataModel {
        DataModel { cells: self.cells.remove(a), ..self }
    }

    /// The groups of `a` are prepared and `a` lies within bounds: a cell can be
    /// created there without changing the metadata.
    pub open spec fn settled(self, a: Address) -> bool {
        &&& self.metadata.contains_key(spec_page_of(a)@)
        &&& self.metadata.contains_key(spec_line_of(a)@)
        &&& self.valid(a)
    }

    /// Every cell lies at a settled address.
    pub open spec fn cells_settled(self) -> bool {
        forall|a: Address| #[trigger] self.cells.contains_key(a) ==> self.settled(a)
    }

    /// The data has the settings of `old`, and keeps the metadata that `old`
    /// has; it may have metadata for more groups.
    pub open spec fn extends(self, old: DataModel) -> bool {
        &&& self.names == old.names
        &&& self.maximum_page_count == old.maximum_page_count
        &&& self.default_line_count == old.default_line_count
        &&& self.default_column_count == old.default_column_count
        &&& self.page_hook == old.page_hook
        &&& self.line_hook == old.line_hook
        &&& forall|k: ReferenceView| #[trigger] old.metadata.contains_key(k)
            ==> self.metadata.contains_key(k) && self.metadata[k] == old.metadata[k]
    }

    /// Extending the metadata keeps settled addresses settled.
    pub proof fn lemma_extends_settled(self, old: DataModel, a: Address)
        requires
            self.extends(old),
            old.settled(a),
        ensures
            self.settled(a),
    {
        assert(self.metadata.contains_key(spec_page_of(a)@));
        assert(self.metadata.contains_key(spec_line_of(a)@));
    }

    /// Preparing a settled address changes nothing.
    pub proof fn lemma_prepared_settled(self, a: Address)
        requires
            self.settled(a),
        ensures
            self.prepared(a) == self,
            self.prepare(a) == (Ok::<(), Error>(()), self),
    {
    }

    /// `extends` is transitive.
    pub proof fn lemma_extends_trans(self, mid: DataModel, old: DataModel)
        requires
            self.extends(mid),
            mid.extends(old),
        ensures
            self.extends(old),
    {
        assert forall|k: ReferenceView| #[trigger] old.metadata.contains_key(k) implies self.metadata.contains_key(k)
            && self.metadata[k] == old.metadata[k] by {
            assert(mid.metadata.contains_key(k));
        }
    }

    /// The data after searching for a free address keeps the cells, the
    /// settings and the metadata, and its counts stay positive.
    pub proof fn lemma_first_free_keeps(self, s: Address)
        requires
            self.counts_positive(),
        ensures
            self.first_free(s).1 == self.prepared(s),
            self.first_free(s).1.counts_positive(),
            self.first_free(s).1.extends(self),
            self.first_free(s).1.cells == self.cells,
    {
        self.lemma_prepared(s);
    }

    /// Where some address within bounds is free, there is a first one from
    /// `s` on.
    pub proof fn lemma_first_free_exists(self, s: Address, x: Address)
        requires
            self.valid(x),
            !self.colored(x),
        ensures
            exists|y: Address| self.first_free_at(s, y),
        decreases cyclic_distance(s, x),
    {
        lemma_cyclic_distance(s, x, x);
        if !self.first_free_at(s, x) {
            let y = choose|y: Address|
                #[trigger] self.valid(y) && cyclic_distance(s, y) < cyclic_distance(s, x)
                    && !self.colored(y);
            lemma_cyclic_distance(s, y, y);
            self.lemma_first_free_exists(s, y);
        }
    }

    /// The first free address from `s` on is unique.
    pub proof fn lemma_first_free_unique(self, s: Address, x: Address, y: Address)
        requires
            self.first_free_at(s, x),
            self.first_free_at(s, y),
        ensures
            x == y,
    {
        lemma_cyclic_distance(s, x, y);
    }
}

/// The address is in the exclusion list.
pub open spec fn excluded(exclude: Option<Seq<Address>>, a: Address) -> bool {
    match exclude {
        Some(v) => v.contains(a),
        None => false,
    }
}

/// The addresses of an optional list.
pub open spec fn opt_addresses(v: Option<Vec<Address>>) -> Option<Seq<Address>> {
    match v {
        Some(v) => Some(v@),
        None => None,
    }
}

/// The addresses are in strictly increasing address order.
pub open spec fn ascending(s: Seq<Address>) -> bool {
    forall|i: int, j: int| 0 <= i < j < s.len() ==> key(#[trigger] s[i]) < key(#[trigger] s[j])
}

/// A map assigning names to references.
pub open spec fn names_view(names: Seq<(String, Reference)>) -> Seq<(Seq<char>, ReferenceView)> {
    names.map_values(|e: (String, Reference)| (e.0@, e.1@))
}

/// Encapsulates a single palette's operation-relevant data.
pub struct Data {
    /// A map assigning addresses to `Palette` cells.
    pub cells: AddressMap<Cell>,
    /// A map assigning names to references.
    pub names: Vec<(String, Reference)>,
    /// A map assigning metadata to references.
    pub metadata: MetaMap,
    /// The maximum number of pages in the `Palette`.
    pub maximum_page_count: Page,
    /// The default number of lines in each page.
    pub default_line_count: Line,
    /// The default number of columns in each line.
    pub default_column_count: Column,
    /// The format called before a `Cell` is added to a new page; it adds the
    /// page's metadata. It is called before `prepare_new_line`.
    pub prepare_new_page: Format,
    /// The format called before a `Cell` is added to a new line; it adds the
    /// line's metadata.
    pub prepare_new_line: Format,
}

impl View for Data {
    type V = DataModel;

    open spec fn view(&self) -> DataModel {
        DataModel {
            cells: self.cells@.map_values(|c: Cell| c.expression()),
            names: names_view(self.names@),
            metadata: self.metadata@,
            maximum_page_count: self.maximum_page_count,
            default_line_count: self.default_line_count,
            default_column_count: self.default_column_count,
            page_hook: self.prepare_new_page,
            line_hook: self.prepare_new_line,
        }
    }
}

impl Data {
    /// Returns the number of cells in the data.
    pub fn len(&self) -> (r: usize)
        ensures
            r == self@.cells.dom().len(),
            self@.cells.dom().finite(),
    {
        proof {
            assert(self@.cells.dom() =~= self.cells@.dom());
            self.lemma_cells_finite();
        }
        self.cells.len()
    }

    /// Returns whether there are any `Cell`s in the `Data`.
    pub fn is_empty(&self) -> (r: bool)
        ensures
            r == (self@.cells.dom().len() == 0),
    {
        self.len() == 0
    }

    /// Returns the cell located at the given address, or None if the address
    /// is empty.
    pub fn get_cell(&self, address: Address) -> (r: Option<Cell>)
        ensures
            match r {
                Some(c) => self@.cells.contains_key(address) && c.expression()
                    == self@.cells[address],
                None => !self@.cells.contains_key(address),
            },
    {
        match self.cells.get(&address) {
            Some(c) => Some(*c),
            None => None,
        }
    }

    /// Returns the cell at the given address; if the address holds none, an
    /// empty cell is created there and returned. Fails with `InvalidAddress`
    /// if the address lies outside the palette once its groups are prepared.
    pub fn create_cell(&mut self, address: Address) -> (r: Result<Cell, Error>)
        ensures
            final(self)@ == old(self)@.create(address).1,
            final(self)@.cells.dom().finite(),
            match r {
                Ok(c) => old(self)@.create(address).0 is Ok && c.expression() == (if old(
                    self,
                )@.cells.contains_key(address) {
                    old(self)@.cells[address]
                } else {
                    Expression::Empty
                }),
                Err(e) => old(self)@.create(address).0 == Err::<(), Error>(e),
            },
    {
        proof {
            self.lemma_cells_finite();
        }
        if let Some(c) = self.get_cell(address) {
            Ok(c)
        } else {
            self.prepare_address(address)?;
            let new_cell = Cell::new(Expression::Empty);
            let ghost before = self@;
            self.cells.insert(address, new_cell);
            proof {
                assert(self@.cells =~= before.cells.insert(address, Expression::Empty));
            }
            Ok(new_cell)
        }
    }

    /// Removes the cell at the given address and returns its expression, or an
    /// `EmptyAddress` error if the address holds no cell.
    pub fn remove_cell(&mut self, address: Address) -> (r: Result<Expression, Error>)
        ensures
            final(self)@.cells.dom().finite(),
            old(self)@.cells.contains_key(address) ==> r == Ok::<Expression, Error>(old(self)@.cells[address])
                && final(self)@ == (DataModel { cells: old(self)@.cells.remove(address), ..old(self)@ }),
            !old(self)@.cells.contains_key(address) ==> r == Err::<Expression, Error>(Error::EmptyAddress(address))
                && final(self)@ == old(self)@,
    {
        proof {
            self.lemma_cells_finite();
        }
        let ghost before = self@;
        match self.cells.remove(&address) {
            Some(cell) => {
                proof {
                    assert(self@.cells =~= before.cells.remove(address));
                }
                Ok(cell.get())
            },
            None => {
                proof {
                    assert(self@.cells =~= before.cells);
                }
                Err(Error::EmptyAddress(address))
            },
        }
    }

    /// Returns the label associated with the given group, or None if it has no
    /// label.
    pub fn get_label(&self, group: Reference) -> (r: Option<&str>)
        ensures
            match r {
                Some(s) => self@.metadata.contains_key(group@)
                    && self@.metadata[group@].format_label == Some(s@),
                None => !self@.metadata.contains_key(group@)
                    || self@.metadata[group@].format_label is None,
            },
    {
        match self.metadata.get(&group) {
            Some(meta) => match &meta.format_label {
                Some(label) => Some(label.as_str()),
                None => None,
            },
            None => None,
        }
    }

    /// Returns the metadata of a group, or the default for a group without
    /// any.
    fn entry(&self, group: &Reference) -> (r: MetaData)
        ensures
            r@ == self@.entry(group@),
    {
        match self.metadata.get(group) {
            Some(meta) => meta.duplicate(),
            None => MetaData::default(),
        }
    }

    /// Sets the label for the given group.
    pub fn set_label(&mut self, group: Reference, format_label: &str)
        ensures
            final(self)@ == old(self)@.with_label(group@, format_label@),
    {
        let mut meta = self.entry(&group);
        meta.format_label = Some(String::from_str(format_label));
        self.metadata.insert(group, meta);
        proof {
            assert(self@.metadata =~= old(self)@.with_label(group@, format_label@).metadata);
        }
    }

    /// Returns the name associated with the given group, or None if it has no
    /// name.
    pub fn get_name(&self, group: Reference) -> (r: Option<&str>)
        ensures
            match r {
                Some(s) => self@.metadata.contains_key(group@)
                    && self@.metadata[group@].name == Some(s@),
                None => !self@.metadata.contains_key(group@)
                    || self@.metadata[group@].name is None,
            },
    {
        match self.metadata.get(&group) {
            Some(meta) => match &meta.name {
                Some(name) => Some(name.as_str()),
                None => None,
            },
            None => None,
        }
    }

    /// Sets the name for the given group.
    pub fn set_name(&mut self, group: Reference, name: &str)
        ensures
            final(self)@ == old(self)@.with_name(group@, name@),
    {
        let mut meta = self.entry(&group);
        meta.name = Some(String::from_str(name));
        self.metadata.insert(group, meta);
        proof {
            assert(self@.metadata =~= old(self)@.with_name(group@, name@).metadata);
        }
    }

    /// Sets the line count for a group.
    pub fn set_line_count(&mut self, group: Reference, line_count: Line)
        ensures
            final(self)@ == old(self)@.with_line_count(group@, line_count),
    {
        let mut meta = self.entry(&group);
        meta.line_count = line_count;
        self.metadata.insert(group, meta);
        proof {
            assert(self@.metadata =~= old(self)@.with_line_count(group@, line_count).metadata);
        }
    }

    /// Sets the column count for a group.
    pub fn set_column_count(&mut self, group: Reference, column_count: Column)
        ensures
            final(self)@ == old(self)@.with_column_count(group@, column_count),
    {
        let mut meta = self.entry(&group);
        meta.column_count = column_count;
        self.metadata.insert(group, meta);
        proof {
            assert(self@.metadata =~= old(self)@.with_column_count(group@, column_count).metadata);
        }
    }

    /// Returns whether the cell at the address generates a color.
    fn is_colored(&self, address: &Address) -> (r: bool)
        ensures
            r == self@.colored(*address),
    {
        proof {
            self.lemma_cells_finite();
        }
        let mut path: Vec<Address> = Vec::new();
        proof {
            assert(path@.to_set() =~= Set::<Address>::empty());
        }
        self.generates_from(*address, &mut path)
    }

    /// Returns whether the cell at the address generates a color, following
    /// references without coming back to a cell of the path.
    fn generates_from(&self, address: Address, path: &mut Vec<Address>) -> (r: bool)
        requires
            self@.cells.dom().finite(),
            old(path)@.no_duplicates(),
            forall|i: int| 0 <= i < old(path)@.len() ==> self@.cells.contains_key(#[trigger] old(path)@[i]),
        ensures
            r == generates(self@.cells, address, old(path)@.to_set()),
            final(path)@ == old(path)@,
        decreases self@.cells.dom().len() - old(path)@.len(),
    {
        let ghost d = self@;
        let ghost p0 = path@;
        proof {
            p0.unique_seq_to_set();
            assert(p0.to_set().subset_of(d.cells.dom()));
            vstd::set_lib::lemma_len_subset(p0.to_set(), d.cells.dom());
        }
        if let Some(j) = position_of(path, address) {
            proof {
                assert(p0.to_set().contains(p0[j as int]));
                assert(!generates(d.cells, address, p0.to_set()));
            }
            return false;
        }
        proof {
            assert(!p0.to_set().contains(address));
        }
        let e = match self.cells.get(&address) {
            None => {
                proof {
                    assert(!generates(d.cells, address, p0.to_set()));
                }
                return false;
            },
            Some(cell) => cell.get(),
        };
        let ghost p1 = p0.push(address);
        proof {
            lemma_push_to_set(p0, address);
            assert(p1.no_duplicates()) by {
                assert forall|a: int, b: int| 0 <= a < b < p1.len() implies p1[a] != p1[b] by {
                    if b == p0.len() {
                        assert(p0[a] != address);
                    } else {
                        assert(p1[a] == p0[a] && p1[b] == p0[b]);
                    }
                }
            }
            p1.unique_seq_to_set();
            vstd::set_lib::lemma_len_subset(p1.to_set(), d.cells.dom());
            assert(generates(d.cells, address, p0.to_set()) == match e {
                Expression::Empty => false,
                Expression::Color(_) => true,
                Expression::Watch(b) => generates(d.cells, b, p1.to_set()),
                Expression::Ramp { from, to, .. } => generates(d.cells, from, p1.to_set())
                    && generates(d.cells, to, p1.to_set()),
            });
        }
        match e {
            Expression::Empty => false,
            Expression::Color(_) => true,
            Expression::Watch(b) => {
                path.push(address);
                let r = self.generates_from(b, path);
                path.pop();
                proof {
                    assert(path@ =~= p0);
                }
                r
            },
            Expression::Ramp { from, to, .. } => {
                path.push(address);
                let r1 = self.generates_from(from, path);
                let r = if r1 {
                    self.generates_from(to, path)
                } else {
                    false
                };
                path.pop();
                proof {
                    assert(path@ =~= p0);
                }
                r
            },
        }
    }

    /// The cells have finitely many addresses.
    pub proof fn lemma_cells_finite(&self)
        ensures
            self@.cells.dom().finite(),
    {
        self.cells.lemma_dom_finite();
        assert(self@.cells.dom() =~= self.cells@.dom());
    }

    /// Returns the color that the cell at the address generates: its fixed
    /// color, or the color of the cell it watches, followed on to a fixed
    /// color; `None` for a missing or empty cell, and for a watcher whose
    /// references lead round in a loop.
    pub fn color_at(&self, address: Address) -> (r: Option<Color>)
        ensures
            r == self@.color_of(address),
    {
        let ghost d = self@;
        proof {
            self.lemma_cells_finite();
        }
        let mut chain: Vec<Address> = Vec::new();
        let mut cur = address;
        loop
            invariant
                d == self@,
                d.cells.dom().finite(),
                d.color_of(address) == d.color_of(cur),
                chain@.no_duplicates(),
                forall|i: int| 0 <= i < chain@.len() ==> d.cells.contains_key(#[trigger] chain@[i]),
                forall|i: int|
                    0 <= i < chain@.len() ==> d.cells[#[trigger] chain@[i]] == Expression::Watch(
                        if i + 1 < chain@.len() {
                            chain@[i + 1]
                        } else {
                            cur
                        },
                    ),
            decreases d.cells.dom().len() - chain@.len(),
        {
            if let Some(j) = position_of(&chain, cur) {
                proof {
                    lemma_chain_loop(d.cells, chain@, j as int, cur);
                }
                return None;
            }
            match self.cells.get(&cur) {
                None => {
                    proof {
                        lemma_own_color(d, cur);
                    }
                    return None;
                },
                Some(cell) => {
                    let e = cell.get();
                    match e {
                        Expression::Watch(next) => {
                            proof {
                                lemma_watch_color(d, cur, next);
                                let c2 = chain@.push(cur);
                                assert(c2.no_duplicates()) by {
                                    assert forall|a: int, b: int| 0 <= a < b < c2.len() implies c2[a] != c2[b] by {
                                        if b == chain@.len() {
                                            assert(chain@[a] != cur);
                                        } else {
                                            assert(c2[a] == chain@[a] && c2[b] == chain@[b]);
                                        }
                                    }
                                }
                                c2.unique_seq_to_set();
                                assert(c2.to_set().subset_of(d.cells.dom())) by {
                                    assert forall|x: Address| c2.to_set().contains(x) implies d.cells.contains_key(x) by {
                                        let k = choose|k: int| 0 <= k < c2.len() && c2[k] == x;
                                        if k < chain@.len() {
                                            assert(chain@[k] == x);
                                        }
                                    }
                                }
                                vstd::set_lib::lemma_len_subset(c2.to_set(), d.cells.dom());
                            }
                            chain.push(cur);
                            cur = next;
                        },
                        _ => {
                            proof {
                                lemma_own_color(d, cur);
                            }
                            return e.color();
                        },
                    }
                },
            }
        }
    }

    /// Returns the first address from the given one on, in address order and
    /// wrapping around the palette, that holds no color. The given address is
    /// prepared first, which fails with `InvalidAddress` if it is out of
    /// bounds; a `MaxCellLimitExceeded` error is returned if every address
    /// holds a color.
    pub fn first_free_address_after(&mut self, starting_address: Address) -> (r: Result<
        Address,
        Error,
    >)
        requires
            old(self)@.counts_positive(),
        ensures
            (r, final(self)@) == old(self)@.first_free(starting_address),
    {
        let mut address = starting_address;
        self.prepare_address(address)?;
        let ghost d = self@;
        proof {
            old(self)@.lemma_prepared(starting_address);
            lemma_cyclic_distance(starting_address, starting_address, starting_address);
        }
        while self.is_colored(&address)
            invariant
                self@ == d,
                old(self)@.prepare(starting_address) == (Ok::<(), Error>(()), d),
                d.counts_positive(),
                d.valid(starting_address),
                d.valid(address),
                forall|y: Address|
                    #[trigger] d.valid(y) && cyclic_distance(starting_address, y)
                        < cyclic_distance(starting_address, address) ==> d.colored(y),
            decreases 4294967296 - cyclic_distance(starting_address, address),
        {
            proof {
                d.lemma_step(starting_address, address);
                lemma_linear_fits(address, d.line_count(address) as int, d.column_count(address) as int);
                lemma_cyclic_distance(starting_address, address, address);
            }
            let lines = self.get_line_count(&address);
            let columns = self.get_column_count(&address);
            let next = address.wrapping_step(1, self.maximum_page_count, lines, columns);
            if next == starting_address {
                proof {
                    assert(d.step(address) == starting_address);
                    assert forall|x: Address| d.valid(x) implies d.colored(x) by {
                        lemma_cyclic_distance(starting_address, x, address);
                        assert(cyclic_distance(starting_address, x) <= cyclic_distance(
                            starting_address,
                            address,
                        ));
                        if x != address {
                            assert(d.colored(x));
                        }
                    }
                    assert(!exists|x: Address| d.valid(x) && !d.colored(x));
                }
                return Err(Error::MaxCellLimitExceeded);
            }
            proof {
                assert forall|y: Address|
                    #[trigger] d.valid(y) && cyclic_distance(starting_address, y)
                        < cyclic_distance(starting_address, next) implies d.colored(y) by {
                    lemma_cyclic_distance(starting_address, y, address);
                }
            }
            address = next;
        }
        proof {
            assert(d.first_free_at(starting_address, address));
            let x = choose|x: Address| d.first_free_at(starting_address, x);
            d.lemma_first_free_unique(starting_address, x, address);
        }
        Ok(address)
    }

    /// Returns whether the address is in the exclusion list.
    fn is_excluded(exclude: &Option<Vec<Address>>, address: &Address) -> (r: bool)
        ensures
            r == excluded(opt_addresses(*exclude), *address),
    {
        match exclude {
            Some(v) => {
                let mut i: usize = 0;
                while i < v.len()
                    invariant
                        i <= v.len(),
                        opt_addresses(*exclude) == Some(v@),
                        forall|j: int| 0 <= j < i ==> v@[j] != *address,
                    decreases v.len() - i,
                {
                    if v[i] == *address {
                        proof {
                            assert(v@[i as int] == *address);
                            assert(v@.contains(*address));
                        }
                        return true;
                    }
                    i = i + 1;
                }
                false
            },
            None => false,
        }
    }

    /// Retrieves `n` target addresses from `starting_address` on, in address
    /// order and wrapping around the palette, and returns them in increasing
    /// order. If `overwrite` is true, the addresses may hold expressions;
    /// otherwise they hold no color. Addresses in the exclude list are
    /// skipped. Fails with `InvalidAddress` for an address out of bounds, and
    /// with `MaxCellLimitExceeded` if more targets are requested than the
    /// palette has.
    pub fn find_targets(
        &mut self,
        n: usize,
        starting_address: Address,
        overwrite: bool,
        exclude: Option<Vec<Address>>,
    ) -> (r: Result<Vec<Address>, Error>)
        requires
            old(self)@.counts_positive(),
        ensures
            final(self)@ == old(self)@.targets(
                n as nat,
                starting_address,
                overwrite,
                opt_addresses(exclude),
            ).1,
            match r {
                Ok(v) => old(self)@.targets(
                    n as nat,
                    starting_address,
                    overwrite,
                    opt_addresses(exclude),
                ).0 == Ok::<Set<Address>, Error>(v@.to_set()) && ascending(v@) && v@.len() == n && forall|i: int|
                    0 <= i < v@.len() ==> !excluded(opt_addresses(exclude), #[trigger] v@[i]) && (
                    !overwrite ==> !old(self)@.colored(v@[i])) && (overwrite
                    ==> final(self)@.settled(v@[i])),
                Err(e) => old(self)@.targets(
                    n as nat,
                    starting_address,
                    overwrite,
                    opt_addresses(exclude),
                ).0 == Err::<Set<Address>, Error>(e),
            },
            !overwrite ==> (r matches Err(e) ==> e is InvalidAddress || e == Error::MaxCellLimitExceeded),
            !overwrite && old(self)@.page_hook is Default && old(self)@.line_hook is Default ==> match r {
                Ok(v) => old(self)@.free_segment(starting_address, opt_addresses(exclude), v@.to_set()),
                Err(e) => e == Error::InvalidAddress(starting_address) || (e
                    == Error::MaxCellLimitExceeded && old(self)@.too_few_free(
                    opt_addresses(exclude),
                    n as nat,
                )),
            },
            overwrite ==> r == Err::<Vec<Address>, Error>(Error::InvalidAddress(starting_address))
                || final(self)@.gathered(
                starting_address,
                opt_addresses(exclude),
                n as nat,
                old(self)@.targets(n as nat, starting_address, overwrite, opt_addresses(exclude)).0,
            ),
    {
        let ghost ex = opt_addresses(exclude);
        proof {
            old(self)@.lemma_targets_end(n as nat, starting_address, overwrite, ex);
            if overwrite {
                old(self)@.lemma_overwrite_targets(n as nat, starting_address, ex);
            } else {
                old(self)@.lemma_free_targets_fail(n as nat, starting_address, ex);
                if old(self)@.page_hook is Default && old(self)@.line_hook is Default {
                    old(self)@.lemma_free_targets_segment(n as nat, starting_address, ex);
                }
            }
        }
        let ghost fuel0 = choose|f: nat|
            #[trigger] old(self)@.targets_with_fuel(n as nat, starting_address, overwrite, ex, f) is Some;
        proof {
            old(self)@.lemma_targets_fuel(n as nat, starting_address, overwrite, ex, fuel0);
        }
        let ghost outcome = old(self)@.targets(n as nat, starting_address, overwrite, ex);
        let mut targets: AddressMap<()> = AddressMap::new();
        let mut next = starting_address;
        if overwrite {
            let ghost mut fuel = fuel0;
            while targets.len() < n
                invariant
                    self@.counts_positive(),
                    ex == opt_addresses(exclude),
                    outcome == old(self)@.targets(n as nat, starting_address, overwrite, ex),
                    overwrite ==> outcome.0 == Err::<Set<Address>, Error>(
                        Error::InvalidAddress(starting_address),
                    ) || outcome.1.gathered(starting_address, ex, n as nat, outcome.0),
                    !overwrite ==> (outcome.0 matches Err(e) ==> e is InvalidAddress || e
                        == Error::MaxCellLimitExceeded),
                    overwrite,
                    self@.overwrite_walk(n as nat, ex, starting_address, targets@.dom(), next, fuel) == Some(
                        outcome,
                    ),
                decreases fuel,
            {
                let ghost before = self@;
                proof {
                    before.lemma_prepared(next);
                }
                self.prepare_address(next)?;
                if targets.contains_key(&next) {
                    return Err(Error::MaxCellLimitExceeded);
                }
                if !Self::is_excluded(&exclude, &next) {
                    targets.insert(next, ());
                }
                let lines = self.get_line_count(&next);
                let columns = self.get_column_count(&next);
                proof {
                    lemma_linear_fits(next, lines as int, columns as int);
                }
                let stepped = next.wrapping_step(1, self.maximum_page_count, lines, columns);
                if targets.len() < n && distance_from(&starting_address, &stepped) <= distance_from(
                    &starting_address,
                    &next,
                ) {
                    return Err(Error::MaxCellLimitExceeded);
                }
                next = stepped;
                proof {
                    fuel = (fuel - 1) as nat;
                }
            }
        } else if n > 0 {
            let ghost before = self@;
            self.prepare_address(next)?;
            proof {
                before.lemma_prepared(next);
            }
            if !self.is_colored(&next) && !Self::is_excluded(&exclude, &next) {
                targets.insert(next, ());
                proof {
                    assert(targets@.dom() =~= set![next]);
                }
            } else {
                proof {
                    assert(targets@.dom() =~= Set::empty());
                }
            }
            let ghost mut fuel = fuel0;
            while targets.len() < n
                invariant
                    self@.counts_positive(),
                    ex == opt_addresses(exclude),
                    outcome == old(self)@.targets(n as nat, starting_address, overwrite, ex),
                    overwrite ==> outcome.0 == Err::<Set<Address>, Error>(
                        Error::InvalidAddress(starting_address),
                    ) || outcome.1.gathered(starting_address, ex, n as nat, outcome.0),
                    !overwrite ==> (outcome.0 matches Err(e) ==> e is InvalidAddress || e
                        == Error::MaxCellLimitExceeded),
                    old(self)@.page_hook is Default && old(self)@.line_hook is Default ==> (
                    outcome.0 matches Err(e) ==> e == Error::InvalidAddress(starting_address) || (e
                        == Error::MaxCellLimitExceeded && old(self)@.too_few_free(ex, n as nat))),
                    !overwrite,
                    self@.free_walk(n as nat, ex, starting_address, targets@.dom(), next, fuel) == Some(outcome),
                decreases fuel,
            {
                let lines = self.get_line_count(&next);
                let columns = self.get_column_count(&next);
                proof {
                    lemma_linear_fits(next, lines as int, columns as int);
                }
                let stepped = next.wrapping_step(1, self.maximum_page_count, lines, columns);
                let ghost before = self@;
                proof {
                    before.lemma_prepared(stepped);
                }
                let found = self.first_free_address_after(stepped)?;
                if distance_from(&starting_address, &found) <= distance_from(&starting_address, &next) {
                    return Err(Error::MaxCellLimitExceeded);
                }
                next = found;
                if !Self::is_excluded(&exclude, &next) {
                    targets.insert(next, ());
                }
                proof {
                    fuel = (fuel - 1) as nat;
                }
            }
        }
        let v = targets.addresses();
        proof {
            old(self)@.lemma_targets_found(n as nat, starting_address, overwrite, ex);
            assert(v@.no_duplicates()) by {
                assert forall|i: int, j: int| 0 <= i < v@.len() && 0 <= j < v@.len() && i != j implies v@[i]
                    != v@[j] by {
                    if i < j {
                        assert(key(v@[i]) < key(v@[j]));
                    } else {
                        assert(key(v@[j]) < key(v@[i]));
                    }
                }
            }
            v@.unique_seq_to_set();
            let ts = v@.to_set();
            assert(outcome.0 == Ok::<Set<Address>, Error>(ts));
            assert forall|i: int| 0 <= i < v@.len() implies !excluded(ex, #[trigger] v@[i]) && (
            !overwrite ==> !old(self)@.colored(v@[i])) && (overwrite ==> self@.settled(v@[i])) by {
                assert(ts.contains(v@[i]));
            }
        }
        Ok(v)
    }

    /// Returns the line count of the page holding `address`.
    fn get_line_count(&self, address: &Address) -> (r: Line)
        ensures
            r == self@.line_count(*address),
    {
        match self.metadata.get(&Reference::page_of(address)) {
            Some(meta) => meta.line_count,
            None => self.default_line_count,
        }
    }

    /// Returns the column count of the line holding `address`.
    fn get_column_count(&self, address: &Address) -> (r: Column)
        ensures
            r == self@.column_count(*address),
    {
        match self.metadata.get(&Reference::line_of(address)) {
            Some(meta) => meta.column_count,
            None => self.default_column_count,
        }
    }

    /// Returns whether the given address lies within the bounds defined by the
    /// wrapping and max page settings for the palette.
    fn check_address(&self, address: Address) -> (r: bool)
        ensures
            r == self@.valid(address),
    {
        address.page < self.maximum_page_count && address.line < self.get_line_count(&address)
            && address.column < self.get_column_count(&address)
    }

    /// Prepares an address by calling the palette format's metadata functions
    /// for its page and line, if they have no metadata yet. Fails with
    /// `InvalidAddress` if the address is then out of bounds.
    pub(crate) fn prepare_address(&mut self, address: Address) -> (r: Result<(), Error>)
        ensures
            (r, final(self)@) == old(self)@.prepare(address),
    {
        let default_line_count = self.default_line_count;
        let default_column_count = self.default_column_count;
        let page_group = Reference::page_of(&address);
        let line_group = Reference::line_of(&address);
        if !self.metadata.contains_key(&page_group) {
            self.set_line_count(page_group.duplicate(), default_line_count);
            let hook = self.prepare_new_page;
            hook.prepare_new_page(self, &page_group);
        }
        assert(self@ == old(self)@.page_ready(address));
        if !self.metadata.contains_key(&line_group) {
            self.set_column_count(line_group.duplicate(), default_column_count);
            let hook = self.prepare_new_line;
            hook.prepare_new_line(self, &line_group);
        }
        assert(self@ == old(self)@.prepared(address));
        if self.check_address(address) {
            Ok(())
        } else {
            Err(Error::InvalidAddress(address))
        }
    }
}

impl Default for Data {
    fn default() -> (r: Data)
        ensures
            r@ == (DataModel {
                cells: Map::empty(),
                names: Seq::empty(),
                metadata: Map::empty(),
                maximum_page_count: PAGE_MAX,
                default_line_count: LINE_MAX,
                default_column_count: COLUMN_MAX,
                page_hook: Format::Default,
                line_hook: Format::Default,
            }),
    {
        let r = Data {
            cells: AddressMap::new(),
            names: Vec::new(),
            metadata: MetaMap::new(),
            maximum_page_count: PAGE_MAX,
            default_line_count: LINE_MAX,
            default_column_count: COLUMN_MAX,
            prepare_new_page: Format::Default,
            prepare_new_line: Format::Default,
        };
        proof {
            assert(r@.cells =~= Map::empty());
            assert(r@.names =~= Seq::empty());
        }
        r
    }
}

} // verus!
