//! The text of palette data: its own metadata and settings, then each cell
//! by page and line, with the metadata of each new page and line.
use vstd::prelude::*;
use crate::address::{Address, Reference, key, lemma_key_injective, spec_all, spec_line_of, spec_page_of};
use crate::color::{Color, Rgb};
use crate::data::{Data, DataModel, MetaData, MetaView};
use crate::expression::Expression;
use crate::text::{decimal, hex2, push_decimal, push_hex2};

verus! {

/// The names of a group: its name in quotes, then its label in brackets.
pub open spec fn meta_names(m: MetaView) -> Seq<char> {
    match m.name {
        Some(n) => match m.format_label {
            Some(l) => "\""@ + n + "\" ("@ + l + ")"@,
            None => "\""@ + n + "\""@,
        },
        None => match m.format_label {
            Some(l) => "("@ + l + ")"@,
            None => Seq::empty(),
        },
    }
}

/// The text of a group's metadata: its names, then its line and column
/// counts.
pub open spec fn meta_text(m: MetaView) -> Seq<char> {
    meta_names(m) + " [Lines: "@ + decimal(m.line_count as nat) + "] [Columns: "@ + decimal(
        m.column_count as nat,
    ) + "]"@
}

/// `page:line:column` in upper case hexadecimal, two digits at least each.
pub open spec fn address_hex(a: Address) -> Seq<char> {
    hex2(a.page as nat, true) + ":"@ + hex2(a.line as nat, true) + ":"@ + hex2(a.column as nat, true)
}

/// The hexadecimal text of a color: `##RRGGBB`.
pub open spec fn color_hex(c: Color) -> Seq<char> {
    "##"@ + hex2(c.rgb.r as nat, true) + hex2(c.rgb.g as nat, true) + hex2(c.rgb.b as nat, true)
}

/// The addresses are in strictly increasing order.
pub open spec fn ascending_keys(s: Seq<Address>) -> bool {
    forall|i: int, j: int| 0 <= i < j < s.len() ==> key(#[trigger] s[i]) < key(#[trigger] s[j])
}

/// The occupied addresses in increasing order.
pub open spec fn sorted_cells(cells: Map<Address, Expression>) -> Seq<Address> {
    choose|s: Seq<Address>| ascending_keys(s) && s.to_set() == cells.dom()
}

/// Two sequences of addresses in increasing order with the same addresses
/// are equal.
pub proof fn lemma_sorted_unique(s: Seq<Address>, t: Seq<Address>)
    requires
        ascending_keys(s),
        ascending_keys(t),
        s.to_set() == t.to_set(),
    ensures
        s == t,
    decreases s.len(),
{
    if s.len() == 0 {
        if t.len() > 0 {
            assert(t.to_set().contains(t[0]));
        }
        assert(s =~= t);
    } else {
        assert(s.to_set().contains(s[0]));
        assert(t.contains(s[0]));
        let i = choose|i: int| 0 <= i < t.len() && t[i] == s[0];
        assert(t.to_set().contains(t[0]));
        assert(s.contains(t[0]));
        let j = choose|j: int| 0 <= j < s.len() && s[j] == t[0];
        if i > 0 {
            assert(key(t[0]) < key(t[i]));
        }
        if j > 0 {
            assert(key(s[0]) < key(s[j]));
        }
        lemma_key_injective(s[0], t[0]);
        let s1 = s.drop_first();
        let t1 = t.drop_first();
        assert(s1.to_set() =~= t1.to_set()) by {
            assert forall|x: Address| s1.contains(x) <==> t1.contains(x) by {
                if s1.contains(x) {
                    let k = choose|k: int| 0 <= k < s1.len() && s1[k] == x;
                    assert(s[k + 1] == x);
                    assert(key(s[0]) < key(x));
                    assert(s.to_set().contains(x));
                    let m = choose|m: int| 0 <= m < t.len() && t[m] == x;
                    assert(m != 0);
                    assert(t1[m - 1] == x);
                }
                if t1.contains(x) {
                    let k = choose|k: int| 0 <= k < t1.len() && t1[k] == x;
                    assert(t[k + 1] == x);
                    assert(key(t[0]) < key(x));
                    assert(t.to_set().contains(x));
                    let m = choose|m: int| 0 <= m < s.len() && s[m] == x;
                    assert(m != 0);
                    assert(s1[m - 1] == x);
                }
            }
        }
        lemma_sorted_unique(s1, t1);
        assert(s =~= t) by {
            assert forall|k: int| 0 <= k < s.len() implies s[k] == t[k] by {
                if k > 0 {
                    assert(s[k] == s1[k - 1] && t[k] == t1[k - 1]);
                }
            }
        }
    }
}

impl DataModel {
    /// The first line of the text: the palette's own metadata, then its page
    /// count, its number of cells and its default line and column counts.
    pub open spec fn header_text(self) -> Seq<char> {
        (if self.metadata.contains_key(spec_all()@) {
            meta_text(self.metadata[spec_all()@]) + " "@
        } else {
            Seq::empty()
        }) + "["@ + decimal(self.maximum_page_count as nat) + " pages] ["@ + decimal(
            self.cells.dom().len(),
        ) + " expressions] [default wrap "@ + decimal(self.default_line_count as nat) + ":"@
            + decimal(self.default_column_count as nat) + "]\n"@
    }

    /// The heading of the page of `a`, with the page's metadata if it has
    /// any.
    pub open spec fn page_text(self, a: Address) -> Seq<char> {
        let k = spec_page_of(a)@;
        if self.metadata.contains_key(k) {
            "Page "@ + decimal(a.page as nat) + "/*/*"@ + " - "@ + meta_text(self.metadata[k])
                + "\n"@
        } else {
            "Page "@ + decimal(a.page as nat) + "/*/*"@ + "\n"@
        }
    }

    /// The heading of the line of `a`: the line's metadata if it has any,
    /// then the column titles.
    pub open spec fn line_text(self, a: Address) -> Seq<char> {
        let k = spec_line_of(a)@;
        (if self.metadata.contains_key(k) {
            "\t"@ + meta_text(self.metadata[k]) + "\n"@
        } else {
            Seq::empty()
        }) + "\tAddress   Color\n"@
    }

    /// The row of the cell at `a`: its address and its color, black where it
    /// has none.
    pub open spec fn row_text(self, a: Address) -> Seq<char> {
        let c = match self.color_of(a) {
            Some(c) => c,
            None => Color { rgb: Rgb { r: 0, g: 0, b: 0 } },
        };
        "\t"@ + address_hex(a) + "  "@ + color_hex(c) + "\n"@
    }

    /// Each row shows the color that the cell generates, following watchers;
    /// black only where the cell generates no fixed color.
    pub proof fn lemma_row_shows_color(self, a: Address)
        ensures
            self.row_text(a) == "\t"@ + address_hex(a) + "  "@ + color_hex(
                match self.color_of(a) {
                    Some(c) => c,
                    None => Color { rgb: Rgb { r: 0, g: 0, b: 0 } },
                },
            ) + "\n"@,
    {
    }

    /// The row of a watcher shows what the row of the watched cell shows
    /// after its address.
    pub proof fn lemma_watcher_row(self, t: Address, w: Address)
        requires
            self.cells.contains_key(t),
            self.cells[t] == Expression::Watch(w),
        ensures
            self.row_text(t) == "\t"@ + address_hex(t) + self.row_text(w).subrange(
                ("\t"@.len() + address_hex(w).len()) as int,
                self.row_text(w).len() as int,
            ),
    {
        crate::data::lemma_watch_color(self, t, w);
        let c = match self.color_of(w) {
            Some(c) => c,
            None => Color { rgb: Rgb { r: 0, g: 0, b: 0 } },
        };
        let rest = "  "@ + color_hex(c) + "\n"@;
        assert(self.row_text(w) =~= "\t"@ + address_hex(w) + rest);
        assert(self.row_text(w).subrange(
            ("\t"@.len() + address_hex(w).len()) as int,
            self.row_text(w).len() as int,
        ) =~= rest);
        assert(self.row_text(t) =~= "\t"@ + address_hex(t) + rest);
    }

    /// The row of a cell with a fixed color shows that color.
    pub proof fn lemma_color_row(self, a: Address, c: Color)
        requires
            self.cells.contains_key(a),
            self.cells[a] == Expression::Color(c),
        ensures
            self.row_text(a) == "\t"@ + address_hex(a) + "  "@ + color_hex(c) + "\n"@,
    {
        crate::data::lemma_own_color(self, a);
    }

    /// The text of the `i`-th of the addresses `s`: the headings of a new
    /// page and a new line, then its row.
    pub open spec fn cell_text(self, s: Seq<Address>, i: int) -> Seq<char> {
        let a = s[i];
        let new_page = i == 0 || s[i - 1].page != a.page;
        let new_line = new_page || s[i - 1].line != a.line;
        (if new_page {
            self.page_text(a)
        } else {
            Seq::empty()
        }) + (if new_line {
            self.line_text(a)
        } else {
            Seq::empty()
        }) + self.row_text(a)
    }

    /// The text of the first `k` of the addresses `s`.
    pub open spec fn cells_text(self, s: Seq<Address>, k: nat) -> Seq<char>
        decreases k,
    {
        if k == 0 {
            Seq::empty()
        } else {
            self.cells_text(s, (k - 1) as nat) + self.cell_text(s, k - 1)
        }
    }

    /// The text of the data: its first line, then each cell in address order.
    pub open spec fn text(self) -> Seq<char> {
        self.header_text() + self.cells_text(
            sorted_cells(self.cells),
            sorted_cells(self.cells).len(),
        )
    }
}

/// Appends the text of a group's metadata to `out`.
fn push_meta(out: &mut String, m: &MetaData)
    ensures
        final(out)@ == old(out)@ + meta_text(m@),
{
    match &m.name {
        Some(n) => match &m.format_label {
            Some(l) => {
                out.append("\"");
                out.append(n.as_str());
                out.append("\" (");
                out.append(l.as_str());
                out.append(")");
            },
            None => {
                out.append("\"");
                out.append(n.as_str());
                out.append("\"");
            },
        },
        None => match &m.format_label {
            Some(l) => {
                out.append("(");
                out.append(l.as_str());
                out.append(")");
            },
            None => {},
        },
    }
    proof {
        assert(out@ =~= old(out)@ + meta_names(m@));
    }
    out.append(" [Lines: ");
    push_decimal(out, m.line_count as u64);
    out.append("] [Columns: ");
    push_decimal(out, m.column_count as u64);
    out.append("]");
    proof {
        assert(out@ =~= old(out)@ + meta_text(m@));
    }
}

impl Data {
    /// Returns the text of the data: its own metadata and settings, then each
    /// cell by page and line, with the metadata of each new page and line.
    pub fn to_text(&self) -> (r: String)
        ensures
            r@ == self@.text(),
    {
        let ghost d = self@;
        let mut out = String::new();
        match self.metadata.get(&Reference::all()) {
            Some(m) => {
                push_meta(&mut out, m);
                out.append(" ");
            },
            None => {},
        }
        out.append("[");
        push_decimal(&mut out, self.maximum_page_count as u64);
        out.append(" pages] [");
        push_decimal(&mut out, self.len() as u64);
        out.append(" expressions] [default wrap ");
        push_decimal(&mut out, self.default_line_count as u64);
        out.append(":");
        push_decimal(&mut out, self.default_column_count as u64);
        out.append("]\n");
        proof {
            assert(out@ =~= d.header_text());
        }
        let addrs = self.cells.addresses();
        proof {
            assert(self.cells@.dom() =~= d.cells.dom());
            let s = sorted_cells(d.cells);
            assert(ascending_keys(addrs@));
            lemma_sorted_unique(s, addrs@);
            assert(d.cells_text(addrs@, 0) =~= Seq::<char>::empty());
        }
        let mut i: usize = 0;
        while i < addrs.len()
            invariant
                d == self@,
                i <= addrs.len(),
                addrs@.to_set() == d.cells.dom(),
                out@ == d.header_text() + d.cells_text(addrs@, i as nat),
            decreases addrs.len() - i,
        {
            proof {
                assert(addrs@.to_set().contains(addrs@[i as int]));
            }
            self.push_cell(&mut out, &addrs, i);
            proof {
                assert(d.cells_text(addrs@, (i + 1) as nat) == d.cells_text(addrs@, i as nat)
                    + d.cell_text(addrs@, i as int));
                assert(out@ =~= d.header_text() + d.cells_text(addrs@, (i + 1) as nat));
            }
            i = i + 1;
        }
        out
    }

    /// Appends the heading of the page of `a` to `out`.
    fn push_page_heading(&self, out: &mut String, a: Address)
        ensures
            final(out)@ == old(out)@ + self@.page_text(a),
    {
        out.append("Page ");
        push_decimal(out, a.page as u64);
        out.append("/*/*");
        match self.metadata.get(&Reference::page_of(&a)) {
            Some(m) => {
                out.append(" - ");
                push_meta(out, m);
                out.append("\n");
            },
            None => {
                out.append("\n");
            },
        }
        proof {
            assert(out@ =~= old(out)@ + self@.page_text(a));
        }
    }

    /// Appends the heading of the line of `a` to `out`.
    fn push_line_heading(&self, out: &mut String, a: Address)
        ensures
            final(out)@ == old(out)@ + self@.line_text(a),
    {
        match self.metadata.get(&Reference::line_of(&a)) {
            Some(m) => {
                out.append("\t");
                push_meta(out, m);
                out.append("\n");
            },
            None => {},
        }
        out.append("\tAddress   Color\n");
        proof {
            assert(out@ =~= old(out)@ + self@.line_text(a));
        }
    }

    /// Appends the row of the cell at `a` to `out`.
    fn push_row(&self, out: &mut String, a: Address)
        requires
            self@.cells.contains_key(a),
        ensures
            final(out)@ == old(out)@ + self@.row_text(a),
    {
        let color = match self.color_at(a) {
            Some(col) => col,
            None => Color::new(0, 0, 0),
        };
        out.append("\t");
        push_hex2(out, a.page as u64, true);
        out.append(":");
        push_hex2(out, a.line as u64, true);
        out.append(":");
        push_hex2(out, a.column as u64, true);
        out.append("  ");
        out.append("##");
        push_hex2(out, color.rgb.r as u64, true);
        push_hex2(out, color.rgb.g as u64, true);
        push_hex2(out, color.rgb.b as u64, true);
        out.append("\n");
        proof {
            assert(out@ =~= old(out)@ + self@.row_text(a));
        }
    }

    /// Appends the text of the `i`-th of the addresses to `out`.
    fn push_cell(&self, out: &mut String, addrs: &Vec<Address>, i: usize)
        requires
            i < addrs.len(),
            self@.cells.contains_key(addrs@[i as int]),
        ensures
            final(out)@ == old(out)@ + self@.cell_text(addrs@, i as int),
    {
        let a = addrs[i];
        let new_page = i == 0 || addrs[i - 1].page != a.page;
        let new_line = new_page || addrs[i - 1].line != a.line;
        let ghost start = out@;
        if new_page {
            self.push_page_heading(out, a);
        }
        let ghost mid = out@;
        if new_line {
            self.push_line_heading(out, a);
        }
        let ghost mid2 = out@;
        self.push_row(out, a);
        proof {
            assert(mid =~= start + (if new_page {
                self@.page_text(a)
            } else {
                Seq::empty()
            }));
            assert(mid2 =~= mid + (if new_line {
                self@.line_text(a)
            } else {
                Seq::empty()
            }));
            assert(out@ =~= start + self@.cell_text(addrs@, i as int));
        }
    }
}

} // verus!
