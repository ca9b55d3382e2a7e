//! Page:Line:Column addressing for the palette's cells.
//!
//! Every cell is assigned a unique identifier called its `Address`, made of
//! three components: the page, the line and the column. A `Reference` names a
//! set of cells, one component at a time.
use vstd::prelude::*;
use vstd::std_specs::cmp::{PartialEqSpecImpl, PartialOrdSpecImpl};
use vstd::std_specs::convert::FromSpecImpl;
use crate::result::Error;
use crate::interval::{Bound, Interval};
use core::cmp::Ordering;

verus! {

////////////////////////////////////////////////////////////////////////////////
// Address internal types and limits.
////////////////////////////////////////////////////////////////////////////////
/// The page of an `Address`.
pub type Page = u16;
/// The line of an `Address`.
pub type Line = u8;
/// The column of an `Address`.
pub type Column = u8;

/// The maximum page in an Address.
pub const PAGE_MAX: Page = 65535u16;
/// The maximum line in an Address.
pub const LINE_MAX: Line = 255u8;
/// The maximum column in an Address.
pub const COLUMN_MAX: Column = 255u8;

/// A page offset from an `Address`.
pub type PageOffset = i32;
/// A line offset from an `Address`.
pub type LineOffset = i16;
/// A column offset from an `Address`.
pub type ColumnOffset = i16;

////////////////////////////////////////////////////////////////////////////////
// Offset
////////////////////////////////////////////////////////////////////////////////
/// Allows computation of relative `Reference`s.
pub trait Offset: Sized + Copy {
    /// The component type that offsets are computed from.
    type Base: Copy;

    /// The value of the offset.
    spec fn value(self) -> int;

    /// The value of a base component.
    spec fn base_value(b: Self::Base) -> int;

    /// The largest base component.
    spec fn limit() -> int;

    /// The sum of an offset and a base fits the offset type.
    spec fn sum_fits(v: int) -> bool;

    /// Computes the offset from the given component: `Err` when the result
    /// leaves the component's range.
    fn offset(self, base: &Self::Base) -> (r: Result<Self::Base, Error>)
        requires
            Self::sum_fits(self.value() + Self::base_value(*base)),
        ensures
            match r {
                Ok(b) => 0 <= self.value() + Self::base_value(*base) <= Self::limit()
                    && Self::base_value(b) == self.value() + Self::base_value(*base),
                Err(e) => e == Error::InvalidReferenceComponent && !(0 <= self.value()
                    + Self::base_value(*base) <= Self::limit()),
            },
    ;

    /// Returns whether the offset is negative.
    fn is_negative(self) -> (r: bool)
        ensures
            r == (self.value() < 0),
    ;

    /// Returns whether two base components are equal.
    fn base_eq(a: &Self::Base, b: &Self::Base) -> (r: bool)
        ensures
            r == (*a == *b),
    ;

    /// Returns whether two offsets are equal.
    fn offset_eq(&self, other: &Self) -> (r: bool)
        ensures
            r == (*self == *other),
    ;
}

// Implementation for pages.
impl Offset for i32 {
    type Base = u16;

    open spec fn value(self) -> int {
        self as int
    }

    open spec fn base_value(b: u16) -> int {
        b as int
    }

    open spec fn limit() -> int {
        PAGE_MAX as int
    }

    open spec fn sum_fits(v: int) -> bool {
        i32::MIN <= v <= i32::MAX
    }

    fn offset(self, base: &u16) -> (r: Result<u16, Error>) {
        let result = self + *base as i32;
        if result < 0 || result > (PAGE_MAX as i32) {
            Err(Error::InvalidReferenceComponent)
        } else {
            Ok(result as u16)
        }
    }

    fn is_negative(self) -> (r: bool) {
        self < 0
    }

    fn base_eq(a: &u16, b: &u16) -> (r: bool) {
        *a == *b
    }

    fn offset_eq(&self, other: &i32) -> (r: bool) {
        *self == *other
    }
}

// Implementation for lines and columns.
impl Offset for i16 {
    type Base = u8;

    open spec fn value(self) -> int {
        self as int
    }

    open spec fn base_value(b: u8) -> int {
        b as int
    }

    open spec fn limit() -> int {
        LINE_MAX as int
    }

    open spec fn sum_fits(v: int) -> bool {
        i16::MIN <= v <= i16::MAX
    }

    fn offset(self, base: &u8) -> (r: Result<u8, Error>) {
        let result = self + *base as i16;
        if result < 0 || result > (LINE_MAX as i16) {
            Err(Error::InvalidReferenceComponent)
        } else {
            Ok(result as u8)
        }
    }

    fn is_negative(self) -> (r: bool) {
        self < 0
    }

    fn base_eq(a: &u8, b: &u8) -> (r: bool) {
        *a == *b
    }

    fn offset_eq(&self, other: &i16) -> (r: bool) {
        *self == *other
    }
}

////////////////////////////////////////////////////////////////////////////////
// Reference
////////////////////////////////////////////////////////////////////////////////
/// A reference to a set of `Cell`s in the palette.
#[derive(Debug, PartialEq, Eq, Hash, Clone)]
pub struct Reference {
    /// The pages being referenced.
    pub page: ReferenceComponent<Page, PageOffset>,
    /// The lines being referenced.
    pub line: ReferenceComponent<Line, LineOffset>,
    /// The columns being referenced.
    pub column: ReferenceComponent<Column, ColumnOffset>,
}


/// The model of a `ReferenceComponent`: names are their characters.
pub enum ComponentView<T, O> {
    /// Any single index.
    Any,
    /// The given index.
    Index(T),
    /// The index given a name.
    Named(Seq<char>),
    /// An offset from a direct component.
    Indirect(DirectComponentView<T>, O),
    /// Every index.
    All,
}

/// The model of a `DirectReferenceComponent`.
pub enum DirectComponentView<T> {
    /// Any single index.
    Any,
    /// The given index.
    Index(T),
    /// The index given a name.
    Named(Seq<char>),
}

/// The model of a `Reference`.
pub struct ReferenceView {
    /// The pages being referenced.
    pub page: ComponentView<Page, PageOffset>,
    /// The lines being referenced.
    pub line: ComponentView<Line, LineOffset>,
    /// The columns being referenced.
    pub column: ComponentView<Column, ColumnOffset>,
}

impl<T, O> View for ReferenceComponent<T, O> {
    type V = ComponentView<T, O>;

    open spec fn view(&self) -> ComponentView<T, O> {
        match *self {
            ReferenceComponent::Any => ComponentView::Any,
            ReferenceComponent::Index(i) => ComponentView::Index(i),
            ReferenceComponent::Named(n) => ComponentView::Named(n@),
            ReferenceComponent::Indirect(d, o) => ComponentView::Indirect(d@, o),
            ReferenceComponent::All => ComponentView::All,
        }
    }
}

impl<T> View for DirectReferenceComponent<T> {
    type V = DirectComponentView<T>;

    open spec fn view(&self) -> DirectComponentView<T> {
        match *self {
            DirectReferenceComponent::Any => DirectComponentView::Any,
            DirectReferenceComponent::Index(i) => DirectComponentView::Index(i),
            DirectReferenceComponent::Named(n) => DirectComponentView::Named(n@),
        }
    }
}

impl View for Reference {
    type V = ReferenceView;

    open spec fn view(&self) -> ReferenceView {
        ReferenceView { page: self.page@, line: self.line@, column: self.column@ }
    }
}

/// The reference to every cell of the palette.
pub open spec fn spec_all() -> Reference {
    Reference {
        page: ReferenceComponent::All,
        line: ReferenceComponent::All,
        column: ReferenceComponent::All,
    }
}

/// The reference to the page holding `addr`.
pub open spec fn spec_page_of(addr: Address) -> Reference {
    Reference {
        page: ReferenceComponent::Index(addr.page),
        line: ReferenceComponent::All,
        column: ReferenceComponent::All,
    }
}

/// The reference to the line holding `addr`.
pub open spec fn spec_line_of(addr: Address) -> Reference {
    Reference {
        page: ReferenceComponent::Index(addr.page),
        line: ReferenceComponent::Index(addr.line),
        column: ReferenceComponent::All,
    }
}

/// The reference to the single cell at `addr`.
pub open spec fn spec_reference_of(addr: Address) -> Reference {
    Reference {
        page: ReferenceComponent::Index(addr.page),
        line: ReferenceComponent::Index(addr.line),
        column: ReferenceComponent::Index(addr.column),
    }
}

impl Reference {
    /// Returns a `Reference` to the entire palette.
    pub fn all() -> (r: Reference)
        ensures
            r == spec_all(),
    {
        Reference {
            page: ReferenceComponent::All,
            line: ReferenceComponent::All,
            column: ReferenceComponent::All,
        }
    }

    /// Returns a `Reference` to the page containing the given `Address`.
    pub fn page_of(addr: &Address) -> (r: Reference)
        ensures
            r == spec_page_of(*addr),
    {
        Reference {
            page: ReferenceComponent::Index(addr.page),
            line: ReferenceComponent::All,
            column: ReferenceComponent::All,
        }
    }

    /// Returns a `Reference` to the line containing the given `Address`.
    pub fn line_of(addr: &Address) -> (r: Reference)
        ensures
            r == spec_line_of(*addr),
    {
        Reference {
            page: ReferenceComponent::Index(addr.page),
            line: ReferenceComponent::Index(addr.line),
            column: ReferenceComponent::All,
        }
    }

    /// Returns a `Reference` to the single cell at the given `Address`.
    pub fn of_address(addr: &Address) -> (r: Reference)
        ensures
            r == spec_reference_of(*addr),
    {
        Reference {
            page: ReferenceComponent::Index(addr.page),
            line: ReferenceComponent::Index(addr.line),
            column: ReferenceComponent::Index(addr.column),
        }
    }

    /// Returns the page being referenced; an `UnresolvedReferenceComponent`
    /// error when the reference does not resolve to a single page.
    pub fn page(&self) -> (r: Result<Page, Error>)
        ensures
            r == (match self.page {
                ReferenceComponent::Index(p) => Ok(p),
                _ => Err(Error::UnresolvedReferenceComponent),
            }),
    {
        match &self.page {
            ReferenceComponent::Index(p) => Ok(*p),
            _ => Err(Error::UnresolvedReferenceComponent),
        }
    }

    /// Returns the line being referenced; an `UnresolvedReferenceComponent`
    /// error when the reference does not resolve to a single line.
    pub fn line(&self) -> (r: Result<Line, Error>)
        ensures
            r == (match self.line {
                ReferenceComponent::Index(l) => Ok(l),
                _ => Err(Error::UnresolvedReferenceComponent),
            }),
    {
        match &self.line {
            ReferenceComponent::Index(l) => Ok(*l),
            _ => Err(Error::UnresolvedReferenceComponent),
        }
    }

    /// Returns the column being referenced; an `UnresolvedReferenceComponent`
    /// error when the reference does not resolve to a single column.
    pub fn column(&self) -> (r: Result<Column, Error>)
        ensures
            r == (match self.column {
                ReferenceComponent::Index(c) => Ok(c),
                _ => Err(Error::UnresolvedReferenceComponent),
            }),
    {
        match &self.column {
            ReferenceComponent::Index(c) => Ok(*c),
            _ => Err(Error::UnresolvedReferenceComponent),
        }
    }

    /// Returns whether two references are the same.
    pub fn same_as(&self, other: &Reference) -> (r: bool)
        ensures
            r == (self@ == other@),
    {
        self.page.same_as(&other.page) && self.line.same_as(&other.line)
            && self.column.same_as(&other.column)
    }

    /// Returns a copy of the reference.
    pub fn duplicate(&self) -> (r: Reference)
        ensures
            r == *self,
    {
        Reference {
            page: self.page.duplicate(),
            line: self.line.duplicate(),
            column: self.column.duplicate(),
        }
    }
}

impl From<Address> for Reference {
    fn from(addr: Address) -> (r: Reference) {
        Reference::of_address(&addr)
    }
}

impl FromSpecImpl<Address> for Reference {
    open spec fn obeys_from_spec() -> bool {
        true
    }

    open spec fn from_spec(addr: Address) -> Reference {
        spec_reference_of(addr)
    }
}

impl Default for Reference {
    fn default() -> (r: Reference)
        ensures
            r == spec_all(),
    {
        Reference::all()
    }
}

////////////////////////////////////////////////////////////////////////////////
// ReferenceComponent
////////////////////////////////////////////////////////////////////////////////
/// A potentially indirect component of a `Reference`.
#[derive(Debug, PartialEq, Eq, Hash, Clone)]
pub enum ReferenceComponent<T, O> {
    /// Any single index.
    Any,
    /// The given index.
    Index(T),
    /// The index given a name.
    Named(String),
    /// An offset from a direct component.
    Indirect(DirectReferenceComponent<T>, O),
    /// Every index.
    All,
}

impl<T: Copy, O: Offset<Base = T>> ReferenceComponent<T, O> {
    /// Resolves index-relative components to their absolute positions,
    /// relative to the given base index. An `InvalidReferenceComponent` error
    /// is returned, and the component left unchanged, when the offset would
    /// overflow or underflow the component boundaries.
    pub fn resolve_index_indirection(&mut self, base: T) -> (r: Result<(), Error>)
        requires
            match *old(self) {
                ReferenceComponent::Indirect(DirectReferenceComponent::Any, o) => O::sum_fits(
                    o.value() + O::base_value(base),
                ),
                ReferenceComponent::Indirect(DirectReferenceComponent::Index(i), o) => O::sum_fits(
                    o.value() + O::base_value(i),
                ),
                _ => true,
            },
        ensures
            match *old(self) {
                ReferenceComponent::Indirect(DirectReferenceComponent::Any, o) => {
                    let v = o.value() + O::base_value(base);
                    if 0 <= v <= O::limit() {
                        r is Ok && (*final(self) matches ReferenceComponent::Index(x)
                            && O::base_value(x) == v)
                    } else {
                        r == Err::<(), Error>(Error::InvalidReferenceComponent) && *final(self)
                            == *old(self)
                    }
                },
                ReferenceComponent::Indirect(DirectReferenceComponent::Index(i), o) => {
                    let v = o.value() + O::base_value(i);
                    if 0 <= v <= O::limit() {
                        r is Ok && (*final(self) matches ReferenceComponent::Index(x)
                            && O::base_value(x) == v)
                    } else {
                        r == Err::<(), Error>(Error::InvalidReferenceComponent) && *final(self)
                            == *old(self)
                    }
                },
                _ => r is Ok && *final(self) == *old(self),
            },
    {
        let mut resolved: Option<T> = None;
        match self {
            ReferenceComponent::Indirect(drc, o) => {
                match drc {
                    DirectReferenceComponent::Any => {
                        let b = o.offset(&base)?;
                        resolved = Some(b);
                    },
                    DirectReferenceComponent::Index(i) => {
                        let b = o.offset(i)?;
                        resolved = Some(b);
                    },
                    _ => {},
                }
            },
            _ => {},
        }
        if let Some(res) = resolved {
            *self = ReferenceComponent::Index(res);
        }
        Ok(())
    }

    /// Returns whether two components are the same.
    pub fn same_as(&self, other: &Self) -> (r: bool)
        ensures
            r == (self@ == other@),
    {
        match (self, other) {
            (ReferenceComponent::Any, ReferenceComponent::Any) => true,
            (ReferenceComponent::Index(a), ReferenceComponent::Index(b)) => O::base_eq(a, b),
            (ReferenceComponent::Named(a), ReferenceComponent::Named(b)) => {
                *a == *b
            },
            (ReferenceComponent::Indirect(a, x), ReferenceComponent::Indirect(b, y)) => {
                a.same_as::<O>(b) && x.offset_eq(y)
            },
            (ReferenceComponent::All, ReferenceComponent::All) => true,
            _ => false,
        }
    }

    /// Returns a copy of the component.
    pub fn duplicate(&self) -> (r: Self)
        ensures
            r == *self,
    {
        match self {
            ReferenceComponent::Any => ReferenceComponent::Any,
            ReferenceComponent::Index(a) => ReferenceComponent::Index(*a),
            ReferenceComponent::Named(a) => ReferenceComponent::Named(a.clone()),
            ReferenceComponent::Indirect(a, x) => ReferenceComponent::Indirect(
                a.duplicate(),
                *x,
            ),
            ReferenceComponent::All => ReferenceComponent::All,
        }
    }
}

/// The reference component of a direct component.
pub open spec fn spec_component_of<T, O>(drc: DirectReferenceComponent<T>) -> ReferenceComponent<T, O> {
    match drc {
        DirectReferenceComponent::Any => ReferenceComponent::Any,
        DirectReferenceComponent::Index(i) => ReferenceComponent::Index(i),
        DirectReferenceComponent::Named(name) => ReferenceComponent::Named(name),
    }
}

impl<T, O> From<DirectReferenceComponent<T>> for ReferenceComponent<T, O> {
    fn from(drc: DirectReferenceComponent<T>) -> (r: Self) {
        match drc {
            DirectReferenceComponent::Any => ReferenceComponent::Any,
            DirectReferenceComponent::Index(i) => ReferenceComponent::Index(i),
            DirectReferenceComponent::Named(name) => ReferenceComponent::Named(name),
        }
    }
}

impl<T, O> FromSpecImpl<DirectReferenceComponent<T>> for ReferenceComponent<T, O> {
    open spec fn obeys_from_spec() -> bool {
        true
    }

    open spec fn from_spec(drc: DirectReferenceComponent<T>) -> Self {
        spec_component_of(drc)
    }
}

////////////////////////////////////////////////////////////////////////////////
// DirectReferenceComponent
////////////////////////////////////////////////////////////////////////////////
/// A direct component of a `Reference`.
#[derive(Debug, PartialEq, Eq, Hash, Clone)]
pub enum DirectReferenceComponent<T> {
    /// Any single index.
    Any,
    /// The given index.
    Index(T),
    /// The index given a name.
    Named(String),
}

impl<T> DirectReferenceComponent<T> {
    /// Returns the direct component of a reference component that is one:
    /// any, an index or a name.
    pub fn from_component<O>(rc: ReferenceComponent<T, O>) -> (r: Self)
        requires
            rc is Any || rc is Index || rc is Named,
        ensures
            spec_component_of::<T, O>(r) == rc,
    {
        match rc {
            ReferenceComponent::Any => DirectReferenceComponent::Any,
            ReferenceComponent::Index(i) => DirectReferenceComponent::Index(i),
            ReferenceComponent::Named(name) => DirectReferenceComponent::Named(name),
            ReferenceComponent::Indirect(d, _) => d,
            ReferenceComponent::All => DirectReferenceComponent::Any,
        }
    }
}

impl<T: Copy> DirectReferenceComponent<T> {
    /// Returns whether two components are the same.
    pub fn same_as<O: Offset<Base = T>>(&self, other: &Self) -> (r: bool)
        ensures
            r == (self@ == other@),
    {
        match (self, other) {
            (DirectReferenceComponent::Any, DirectReferenceComponent::Any) => true,
            (DirectReferenceComponent::Index(a), DirectReferenceComponent::Index(b)) => O::base_eq(
                a,
                b,
            ),
            (DirectReferenceComponent::Named(a), DirectReferenceComponent::Named(b)) => {
                *a == *b
            },
            _ => false,
        }
    }

    /// Returns a copy of the component.
    pub fn duplicate(&self) -> (r: Self)
        ensures
            r == *self,
    {
        match self {
            DirectReferenceComponent::Any => DirectReferenceComponent::Any,
            DirectReferenceComponent::Index(a) => DirectReferenceComponent::Index(*a),
            DirectReferenceComponent::Named(a) => DirectReferenceComponent::Named(a.clone()),
        }
    }
}

////////////////////////////////////////////////////////////////////////////////
// Address
////////////////////////////////////////////////////////////////////////////////
/// The absolute position of a Cell.
#[derive(Debug, Eq, Ord, Hash, Clone, Copy)]
pub struct Address {
    /// The page of the Address.
    pub page: Page,
    /// The line of the Address.
    pub line: Line,
    /// The column of the Address.
    pub column: Column,
}

/// The position of an address in page, line, column order.
pub open spec fn key(a: Address) -> int {
    a.page * 65536 + a.line * 256 + a.column
}

/// Addresses are equal exactly when their keys are.
pub proof fn lemma_key_injective(a: Address, b: Address)
    ensures
        key(a) == key(b) <==> a == b,
{
}

impl PartialEq for Address {
    fn eq(&self, other: &Address) -> (r: bool) {
        self.page == other.page && self.line == other.line && self.column == other.column
    }
}

impl PartialEqSpecImpl for Address {
    open spec fn obeys_eq_spec() -> bool {
        true
    }

    open spec fn eq_spec(&self, other: &Address) -> bool {
        self.page == other.page && self.line == other.line && self.column == other.column
    }
}

impl PartialOrd for Address {
    fn partial_cmp(&self, other: &Address) -> (r: Option<Ordering>) {
        if self.page < other.page {
            Some(Ordering::Less)
        } else if self.page > other.page {
            Some(Ordering::Greater)
        } else if self.line < other.line {
            Some(Ordering::Less)
        } else if self.line > other.line {
            Some(Ordering::Greater)
        } else if self.column < other.column {
            Some(Ordering::Less)
        } else if self.column > other.column {
            Some(Ordering::Greater)
        } else {
            Some(Ordering::Equal)
        }
    }
}

impl PartialOrdSpecImpl for Address {
    open spec fn obeys_partial_cmp_spec() -> bool {
        true
    }

    open spec fn partial_cmp_spec(&self, other: &Address) -> Option<Ordering> {
        if key(*self) < key(*other) {
            Some(Ordering::Less)
        } else if key(*self) > key(*other) {
            Some(Ordering::Greater)
        } else {
            Some(Ordering::Equal)
        }
    }
}

impl Default for Address {
    fn default() -> (r: Address)
        ensures
            r == (Address { page: 0, line: 0, column: 0 }),
    {
        Address { page: 0, line: 0, column: 0 }
    }
}

/// Addresses are totally ordered by page, then line, then column.
pub proof fn lemma_address_total_order()
    ensures
        crate::order::total_order::<Address>(),
{
}

/// The position of `a` counted in cells from `0:0:0`, for pages of `lines`
/// lines of `columns` columns.
pub open spec fn linear(a: Address, lines: int, columns: int) -> int {
    a.page * (lines * columns) + a.line * columns + a.column
}

/// The address `n` cells after `a`, for pages of `lines` lines of `columns`
/// columns, wrapped to `pages` pages.
pub open spec fn spec_wrapping_step(a: Address, n: int, pages: int, lines: int, columns: int) -> Address {
    let lc = lines * columns;
    let n2 = n + linear(a, lines, columns);
    Address {
        page: ((n2 / lc) % pages) as u16,
        line: ((n2 % lc) / columns) as u8,
        column: ((n2 % lc) % columns) as u8,
    }
}

/// The address lies within `pages` pages of `lines` lines of `columns`
/// columns.
pub open spec fn in_bounds(a: Address, pages: int, lines: int, columns: int) -> bool {
    a.page < pages && a.line < lines && a.column < columns
}

/// Stepping wraps into the palette's bounds.
pub proof fn lemma_wrapping_step_in_bounds(a: Address, n: int, pages: int, lines: int, columns: int)
    requires
        0 < pages <= 65536,
        0 < lines <= 256,
        0 < columns <= 256,
        n + linear(a, lines, columns) >= 0,
    ensures
        in_bounds(spec_wrapping_step(a, n, pages, lines, columns), pages, lines, columns),
{
    let lc = lines * columns;
    assert(0 < lc <= 65536) by (nonlinear_arith)
        requires
            0 < lines <= 256,
            0 < columns <= 256,
            lc == lines * columns,
    ;
    let n2 = n + linear(a, lines, columns);
    let m = n2 % lc;
    assert(0 <= m < lc);
    assert(m / columns < lines) by (nonlinear_arith)
        requires
            0 <= m < lc,
            lc == lines * columns,
            columns > 0,
    ;
    assert(0 <= m / columns) by (nonlinear_arith)
        requires
            0 <= m,
            columns > 0,
    ;
}

/// Stepping by nothing leaves an address within bounds where it is.
pub proof fn lemma_wrapping_step_zero(a: Address, pages: int, lines: int, columns: int)
    requires
        0 < pages,
        0 < lines,
        0 < columns,
        in_bounds(a, pages, lines, columns),
    ensures
        spec_wrapping_step(a, 0, pages, lines, columns) == a,
{
    let lc = lines * columns;
    let r = a.line * columns + a.column;
    assert(0 <= r < lc) by (nonlinear_arith)
        requires
            0 <= a.line < lines,
            0 <= a.column < columns,
            r == a.line * columns + a.column,
            lc == lines * columns,
    ;
    vstd::arithmetic::div_mod::lemma_fundamental_div_mod_converse(
        linear(a, lines, columns),
        lc,
        a.page as int,
        r,
    );
    vstd::arithmetic::div_mod::lemma_fundamental_div_mod_converse(
        r,
        columns,
        a.line as int,
        a.column as int,
    );
    vstd::arithmetic::div_mod::lemma_small_mod(a.page as nat, 65536);
    vstd::arithmetic::div_mod::lemma_small_mod(a.page as nat, pages as nat);
}

/// Stepping `n` cells and then `m` cells is stepping `n + m` cells.
pub proof fn lemma_wrapping_step_compose(
    a: Address,
    n: int,
    m: int,
    pages: int,
    lines: int,
    columns: int,
)
    requires
        0 < pages <= 65536,
        0 < lines <= 256,
        0 < columns <= 256,
        n >= 0,
        m >= 0,
    ensures
        spec_wrapping_step(spec_wrapping_step(a, n, pages, lines, columns), m, pages, lines, columns)
            == spec_wrapping_step(a, n + m, pages, lines, columns),
{
    let lc = lines * columns;
    assert(0 < lc <= 65536) by (nonlinear_arith)
        requires
            0 < lines <= 256,
            0 < columns <= 256,
            lc == lines * columns,
    ;
    let l0 = linear(a, lines, columns);
    assert(l0 >= 0) by (nonlinear_arith)
        requires
            l0 == a.page * (lines * columns) + a.line * columns + a.column,
            a.page >= 0,
            a.line >= 0,
            a.column >= 0,
            lines > 0,
            columns > 0,
    ;
    let big_n = n + l0;
    let d1 = big_n / lc;
    let r1 = big_n % lc;
    vstd::arithmetic::div_mod::lemma_fundamental_div_mod(big_n, lc);
    assert(0 <= r1 < lc);
    assert(d1 >= 0);
    let s = m + r1;
    let q2 = s / lc;
    let r2 = s % lc;
    vstd::arithmetic::div_mod::lemma_fundamental_div_mod(s, lc);
    assert(0 <= r2 < lc);
    assert(q2 >= 0);
    let t = n + m + l0;
    assert(t == (d1 + q2) * lc + r2) by (nonlinear_arith)
        requires
            big_n == lc * d1 + r1,
            s == lc * q2 + r2,
            big_n == n + l0,
            s == m + r1,
            t == n + m + l0,
    ;
    vstd::arithmetic::div_mod::lemma_fundamental_div_mod_converse(t, lc, d1 + q2, r2);
    let b = spec_wrapping_step(a, n, pages, lines, columns);
    let p1 = d1 % pages;
    assert(0 <= p1 < pages);
    assert(b.page == p1);
    let bl = r1 / columns;
    let bc = r1 % columns;
    vstd::arithmetic::div_mod::lemma_fundamental_div_mod(r1, columns);
    assert(0 <= bc < columns);
    assert(0 <= bl < lines) by (nonlinear_arith)
        requires
            0 <= r1 < lc,
            lc == lines * columns,
            columns > 0,
            bl == r1 / columns,
    ;
    assert(b.line == bl);
    assert(b.column == bc);
    let l1 = linear(b, lines, columns);
    assert(l1 == p1 * lc + r1) by (nonlinear_arith)
        requires
            l1 == b.page * (lines * columns) + b.line * columns + b.column,
            b.page == p1,
            b.line == bl,
            b.column == bc,
            r1 == columns * bl + bc,
            lc == lines * columns,
    ;
    let t2 = m + l1;
    assert(t2 == (p1 + q2) * lc + r2) by (nonlinear_arith)
        requires
            t2 == m + l1,
            l1 == p1 * lc + r1,
            s == lc * q2 + r2,
            s == m + r1,
    ;
    vstd::arithmetic::div_mod::lemma_fundamental_div_mod_converse(t2, lc, p1 + q2, r2);
    vstd::arithmetic::div_mod::lemma_add_mod_noop_right(q2, d1, pages);
}

/// Stepping `n` cells from `a` moves `n` places forward in the linear order
/// of the addresses, page by page, line by line, column by column, wrapping
/// around at the end of the palette.
pub proof fn lemma_wrapping_step_linear(a: Address, n: int, pages: int, lines: int, columns: int)
    requires
        0 < pages <= 65536,
        0 < lines <= 256,
        0 < columns <= 256,
        n + linear(a, lines, columns) >= 0,
    ensures
        linear(spec_wrapping_step(a, n, pages, lines, columns), lines, columns) == (linear(
            a,
            lines,
            columns,
        ) + n) % (pages * lines * columns),
{
    let lc = lines * columns;
    assert(0 < lc <= 65536) by (nonlinear_arith)
        requires
            0 < lines <= 256,
            0 < columns <= 256,
            lc == lines * columns,
    ;
    let n2 = n + linear(a, lines, columns);
    let b = spec_wrapping_step(a, n, pages, lines, columns);
    let d1 = n2 / lc;
    let r1 = n2 % lc;
    vstd::arithmetic::div_mod::lemma_fundamental_div_mod(n2, lc);
    assert(0 <= r1 < lc);
    assert(d1 >= 0);
    let p1 = d1 % pages;
    assert(0 <= p1 < pages);
    assert(b.page == p1);
    let bl = r1 / columns;
    let bc = r1 % columns;
    vstd::arithmetic::div_mod::lemma_fundamental_div_mod(r1, columns);
    assert(0 <= bc < columns);
    assert(0 <= bl < lines) by (nonlinear_arith)
        requires
            0 <= r1 < lc,
            lc == lines * columns,
            columns > 0,
            bl == r1 / columns,
    ;
    assert(b.line == bl);
    assert(b.column == bc);
    let l1 = linear(b, lines, columns);
    assert(l1 == p1 * lc + r1) by (nonlinear_arith)
        requires
            l1 == b.page * (lines * columns) + b.line * columns + b.column,
            b.page == p1,
            b.line == bl,
            b.column == bc,
            r1 == columns * bl + bc,
            lc == lines * columns,
    ;
    vstd::arithmetic::div_mod::lemma_mod_breakdown(n2, lc, pages);
    assert(pages * lines * columns == lc * pages) by (nonlinear_arith)
        requires
            lc == lines * columns,
    ;
}

/// The address one cell after `a` within pages of `lines` lines of `columns`
/// columns: the next column, else the start of the next line, else the start
/// of the next page, else the first address of the palette.
pub open spec fn next_address(a: Address, pages: int, lines: int, columns: int) -> Address {
    if a.column + 1 < columns {
        Address { page: a.page, line: a.line, column: (a.column + 1) as u8 }
    } else if a.line + 1 < lines {
        Address { page: a.page, line: (a.line + 1) as u8, column: 0 }
    } else if a.page + 1 < pages {
        Address { page: (a.page + 1) as u16, line: 0, column: 0 }
    } else {
        Address { page: 0, line: 0, column: 0 }
    }
}

/// Stepping one cell from an address within bounds moves to the next
/// address.
pub proof fn lemma_wrapping_step_one(a: Address, pages: int, lines: int, columns: int)
    requires
        0 < pages <= 65535,
        0 < lines <= 255,
        0 < columns <= 255,
        in_bounds(a, pages, lines, columns),
    ensures
        spec_wrapping_step(a, 1, pages, lines, columns) == next_address(a, pages, lines, columns),
{
    let lc = lines * columns;
    let r = a.line * columns + a.column;
    assert(0 <= r < lc) by (nonlinear_arith)
        requires
            0 <= a.line < lines,
            0 <= a.column < columns,
            r == a.line * columns + a.column,
            lc == lines * columns,
    ;
    assert(linear(a, lines, columns) == a.page * lc + r) by (nonlinear_arith)
        requires
            lc == lines * columns,
            r == a.line * columns + a.column,
    ;
    let n2 = 1 + linear(a, lines, columns);
    if r + 1 < lc {
        vstd::arithmetic::div_mod::lemma_fundamental_div_mod_converse(n2, lc, a.page as int, r + 1);
        vstd::arithmetic::div_mod::lemma_small_mod(a.page as nat, 65536);
        vstd::arithmetic::div_mod::lemma_small_mod(a.page as nat, pages as nat);
        if a.column + 1 < columns {
            vstd::arithmetic::div_mod::lemma_fundamental_div_mod_converse(
                r + 1,
                columns,
                a.line as int,
                a.column + 1,
            );
        } else {
            assert(a.line + 1 < lines) by (nonlinear_arith)
                requires
                    a.column + 1 >= columns,
                    a.column < columns,
                    r + 1 < lc,
                    r == a.line * columns + a.column,
                    lc == lines * columns,
            ;
            assert(r + 1 == (a.line + 1) * columns) by (nonlinear_arith)
                requires
                    a.column + 1 == columns,
                    r == a.line * columns + a.column,
            ;
            vstd::arithmetic::div_mod::lemma_fundamental_div_mod_converse(
                r + 1,
                columns,
                a.line + 1,
                0,
            );
        }
    } else {
        assert(a.column + 1 == columns && a.line + 1 == lines) by (nonlinear_arith)
            requires
                r + 1 == lc,
                0 <= a.line < lines,
                0 <= a.column < columns,
                r == a.line * columns + a.column,
                lc == lines * columns,
        ;
        assert(n2 == (a.page + 1) * lc + 0) by (nonlinear_arith)
            requires
                n2 == 1 + linear(a, lines, columns),
                linear(a, lines, columns) == a.page * lc + r,
                r + 1 == lc,
        ;
        vstd::arithmetic::div_mod::lemma_fundamental_div_mod_converse(n2, lc, a.page + 1, 0);
        vstd::arithmetic::div_mod::lemma_small_mod((a.page + 1) as nat, 65536);
        if a.page + 1 < pages {
            vstd::arithmetic::div_mod::lemma_small_mod((a.page + 1) as nat, pages as nat);
        } else {
            vstd::arithmetic::div_mod::lemma_mod_self_0(pages);
        }
        vstd::arithmetic::div_mod::lemma_small_mod(0, columns as nat);
        assert(0int / columns == 0);
    }
}

/// The position of an address, plus one, fits in 32 bits when pages have at
/// most 255 lines of at most 255 columns.
pub proof fn lemma_linear_fits(a: Address, lines: int, columns: int)
    requires
        0 < lines <= 255,
        0 < columns <= 255,
    ensures
        0 <= linear(a, lines, columns),
        1 + linear(a, lines, columns) <= 4294967295,
{
    assert(0 <= linear(a, lines, columns) <= 65535 * 65025 + 255 * 255 + 255) by (nonlinear_arith)
        requires
            0 < lines <= 255,
            0 < columns <= 255,
            0 <= a.line <= 255,
            0 <= a.column <= 255,
            0 <= a.page <= 65535,
    ;
}

impl Address {
    /// Creates a new `Address`.
    pub fn new(page: Page, line: Line, column: Column) -> (r: Address)
        ensures
            r == (Address { page, line, column }),
    {
        Address { page: page, line: line, column: column }
    }

    /// Returns the selection of this address alone.
    pub fn into_selection(self) -> (r: Selection)
        ensures
            forall|a: Address| #[trigger] r.selects(a) <==> a == self,
    {
        proof {
            lemma_address_total_order();
        }
        let iv = Interval::closed(self, self);
        let v = vec![iv];
        let ghost vs = v@;
        let r = Selection::new(v);
        proof {
            assert(vs[0] == iv);
            assert(iv.lo() == Bound::Included(self) && iv.hi() == Bound::Included(self));
            assert forall|a: Address| #[trigger] r.selects(a) <==> a == self by {
                lemma_key_injective(a, self);
                if a == self {
                    assert(vs[0].has(a));
                }
                if crate::interval::seq_has(vs, a) {
                    let i = choose|i: int| 0 <= i < vs.len() && #[trigger] vs[i].has(a);
                    assert(i == 0);
                }
            }
        }
        r
    }

    /// Returns the `Address` n steps ahead, assuming the given wrapping
    /// parameters: pages of `lines` lines of `columns` columns, and `pages`
    /// pages.
    pub fn wrapping_step(&self, n: usize, pages: Page, lines: Line, columns: Column) -> (r: Address)
        requires
            pages > 0,
            lines > 0,
            columns > 0,
            n + linear(*self, lines as int, columns as int) <= usize::MAX,
        ensures
            r == spec_wrapping_step(*self, n as int, pages as int, lines as int, columns as int),
            in_bounds(r, pages as int, lines as int, columns as int),
    {
        let l = lines as usize;
        let c = columns as usize;
        let ghost lc = l * c;
        proof {
            assert(0 < lc <= 65536) by (nonlinear_arith)
                requires
                    0 < l <= 255,
                    0 < c <= 255,
                    lc == l * c,
            ;
            assert(self.page * l * c == self.page * lc) by (nonlinear_arith)
                requires
                    lc == l * c,
            ;
            assert(0 <= self.page * lc) by (nonlinear_arith)
                requires
                    lc >= 0,
            ;
            assert(0 <= self.line * c) by (nonlinear_arith)
                requires
                    c >= 0,
            ;
            assert(0 <= self.page * l) by (nonlinear_arith)
                requires
                    l >= 0,
            ;
            assert(self.page * l <= self.page * l * c) by (nonlinear_arith)
                requires
                    c >= 1,
                    self.page * l >= 0,
            ;
            lemma_wrapping_step_in_bounds(*self, n as int, pages as int, lines as int, columns as int);
        }
        let n2 = n + self.page as usize * l * c + self.line as usize * c + self.column as usize;
        let d = n2 / (l * c);
        let m = n2 % (l * c);
        proof {
            assert(m / c < l) by (nonlinear_arith)
                requires
                    m < l * c,
                    c > 0,
            ;
        }
        Address::new((d % (pages as usize)) as Page, (m / c) as Line, (m % c) as Column)
    }
}

////////////////////////////////////////////////////////////////////////////////
// Selection
////////////////////////////////////////////////////////////////////////////////
/// A possibly non-contiguous selection of addresses.
pub struct Selection {
    /// The intervals of the selection.
    inner: Vec<Interval<Address>>,
}

impl Selection {
    /// The intervals of the selection.
    pub closed spec fn intervals(self) -> Seq<Interval<Address>> {
        self.inner@
    }

    /// The address `a` lies in the selection.
    pub open spec fn selects(self, a: Address) -> bool {
        crate::interval::seq_has(self.intervals(), a)
    }

    /// Creates a new selection from a collection of address intervals, merged
    /// with `Interval::normalize`; a collection of empty intervals selects
    /// nothing.
    pub fn new(intervals: Vec<Interval<Address>>) -> (r: Selection)
        ensures
            forall|a: Address| #[trigger] r.selects(a) <==> crate::interval::seq_has(intervals@, a),
    {
        proof {
            lemma_address_total_order();
        }
        let mut i: usize = 0;
        let mut any = false;
        while i < intervals.len()
            invariant
                crate::order::total_order::<Address>(),
                i <= intervals.len(),
                any ==> exists|k: int| 0 <= k < intervals.len() && !(#[trigger] intervals@[k]).empty(),
                !any ==> forall|k: int| 0 <= k < i ==> (#[trigger] intervals@[k]).empty(),
            decreases intervals.len() - i,
        {
            if !intervals[i].is_empty() {
                any = true;
            }
            i = i + 1;
        }
        if any {
            Selection { inner: Interval::normalize(intervals) }
        } else {
            proof {
                assert forall|a: Address| !crate::interval::seq_has(intervals@, a) by {
                    if crate::interval::seq_has(intervals@, a) {
                        let k = choose|k: int| 0 <= k < intervals.len() && #[trigger] intervals@[k].has(a);
                        assert(intervals@[k].empty());
                        crate::order::lemma_trichotomy(intervals@[k].lo().pt(), a);
                    }
                }
            }
            Selection { inner: Vec::new() }
        }
    }

    /// Unions an interval into the selection.
    pub fn union(&mut self, interval: Interval<Address>)
        ensures
            forall|a: Address| #[trigger] final(self).selects(a) <==> old(self).selects(a) || interval.has(a),
    {
        let ghost before = self.inner@;
        self.inner.push(interval);
        proof {
            assert forall|a: Address| #[trigger] self.selects(a) <==> old(self).selects(a) || interval.has(a) by {
                if interval.has(a) {
                    assert(self.inner@[before.len() as int] == interval);
                }
                if crate::interval::seq_has(before, a) {
                    let k = choose|k: int| 0 <= k < before.len() && #[trigger] before[k].has(a);
                    assert(self.inner@[k] == before[k]);
                }
                if self.selects(a) {
                    let k = choose|k: int| 0 <= k < self.inner@.len() && #[trigger] self.inner@[k].has(a);
                    if k < before.len() {
                        assert(self.inner@[k] == before[k]);
                    }
                }
            }
        }
    }

    /// Returns whether the given address is contained in the selection.
    pub fn contains(&self, address: &Address) -> (r: bool)
        ensures
            r == self.selects(*address),
    {
        proof {
            lemma_address_total_order();
        }
        let mut i: usize = 0;
        while i < self.inner.len()
            invariant
                crate::order::total_order::<Address>(),
                i <= self.inner.len(),
                forall|k: int| 0 <= k < i ==> !(#[trigger] self.inner@[k]).has(*address),
            decreases self.inner.len() - i,
        {
            if self.inner[i].contains(address) {
                return true;
            }
            i = i + 1;
        }
        false
    }
}

impl Default for Selection {
    fn default() -> (r: Selection)
        ensures
            forall|a: Address| !(#[trigger] r.selects(a)),
    {
        Selection { inner: Vec::new() }
    }
}

} // verus!
