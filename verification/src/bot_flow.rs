//! Index-grid navigation: the rows of jump targets offered for a chain
//! whose highest index is known, and the parsing of the callback data a
//! pressed jump button sends back.
//!
//! The grid is rows of fixed width, each subdivided into equally spaced
//! button targets; targets at or past the highest index are left out, a
//! row with no targets left degenerates to a single jump to the newest
//! page, and the very first row begins with a jump to the first page.

use crate::text::{str_chars, usize_parse_spec};
use vstd::prelude::*;

verus! {

/// How many pages one row of the jump grid spans.
pub const PAGES_IN_ROW: usize = 100;

/// How many buttons one row holds.
pub const BTNS_IN_ROW: usize = 4;

/// How many pages lie between two neighbouring buttons.
pub const PAGES_IN_BTN: usize = 25;

/// One jump target: the first page, the newest page (carrying its index),
/// or a numbered page.
#[derive(Debug, Clone, Copy, PartialEq, Eq, Structural)]
pub enum NavBtn {
    First,
    Page(usize),
    Last(usize),
}

/// The numbered targets of one row, for button positions `j` and up:
/// every multiple of the button spacing past `base` that lies strictly
/// below the highest index.
pub open spec fn row_targets(last_idx: int, base: int, j: int) -> Seq<NavBtn>
    decreases BTNS_IN_ROW + 1 - j,
{
    if j < 1 || j > BTNS_IN_ROW {
        Seq::empty()
    } else {
        (if base + j * PAGES_IN_BTN < last_idx {
            seq![NavBtn::Page((base + j * PAGES_IN_BTN) as usize)]
        } else {
            Seq::<NavBtn>::empty()
        }) + row_targets(last_idx, base, j + 1)
    }
}

/// The grid's rows from `base` on: full rows while any target remains,
/// then one degenerate row jumping to the newest page. A row has a target
/// exactly when its first button position lies below the highest index.
pub open spec fn grid_rows(last_idx: int, base: int) -> Seq<Seq<NavBtn>>
    decreases (if last_idx - base > 0 {
        last_idx - base
    } else {
        0int
    }),
{
    if base + PAGES_IN_BTN < last_idx {
        seq![row_targets(last_idx, base, 1)] + grid_rows(last_idx, base + PAGES_IN_ROW)
    } else {
        seq![seq![NavBtn::Last(last_idx as usize)]]
    }
}

/// The whole jump grid for a chain whose highest index is `last_idx`: the
/// rows from zero, with a jump to the first page prepended to the first
/// row.
pub open spec fn jump_grid(last_idx: int) -> Seq<Seq<NavBtn>> {
    let rows = grid_rows(last_idx, 0);
    rows.update(0, seq![NavBtn::First] + rows[0])
}

/// Builds the jump grid for a chain whose highest index is `last_idx`.
pub fn jump_rows(last_idx: usize) -> (r: Vec<Vec<NavBtn>>)
    ensures
        r@.map_values(|row: Vec<NavBtn>| row@) == jump_grid(last_idx as int),
{
    let ghost li = last_idx as int;
    let mut rows: Vec<Vec<NavBtn>> = Vec::new();
    let mut base: usize = 0;
    let ghost mut gbase: int = 0;
    let mut done = false;
    proof {
        assert(rows@.map_values(|row: Vec<NavBtn>| row@) =~= Seq::<Seq<NavBtn>>::empty());
        assert(Seq::<Seq<NavBtn>>::empty() + grid_rows(li, 0) =~= grid_rows(li, 0));
    }
    while !done
        invariant
            li == last_idx as int,
            !done ==> gbase == base as int,
            !done ==> grid_rows(li, 0) == rows@.map_values(|row: Vec<NavBtn>| row@) + grid_rows(
                li,
                gbase,
            ),
            done ==> grid_rows(li, 0) == rows@.map_values(|row: Vec<NavBtn>| row@),
            done ==> rows@.len() > 0,
        decreases (if done {
            0int
        } else if li - gbase > 0 {
            li - gbase + 1
        } else {
            1int
        }),
    {
        let ghost rv = rows@.map_values(|row: Vec<NavBtn>| row@);
        if base < last_idx && last_idx - base > PAGES_IN_BTN {
            let mut row: Vec<NavBtn> = Vec::new();
            let mut j: usize = 1;
            proof {
                assert(Seq::<NavBtn>::empty() + row_targets(li, gbase, 1) =~= row_targets(
                    li,
                    gbase,
                    1,
                ));
            }
            while j <= BTNS_IN_ROW
                invariant
                    1 <= j <= BTNS_IN_ROW + 1,
                    gbase == base as int,
                    li == last_idx as int,
                    base < last_idx,
                    row_targets(li, gbase, 1) == row@ + row_targets(li, gbase, j as int),
                decreases BTNS_IN_ROW + 1 - j,
            {
                let ghost rpre = row@;
                if last_idx - base > j * PAGES_IN_BTN {
                    row.push(NavBtn::Page(base + j * PAGES_IN_BTN));
                    proof {
                        assert(row@ =~= rpre.push(NavBtn::Page((gbase + (j as int) * PAGES_IN_BTN)
                            as usize)));
                        assert(rpre + (seq![
                            NavBtn::Page((gbase + (j as int) * PAGES_IN_BTN) as usize),
                        ] + row_targets(li, gbase, j + 1)) =~= row@ + row_targets(
                            li,
                            gbase,
                            j + 1,
                        ));
                    }
                } else {
                    proof {
                        assert(rpre + (Seq::<NavBtn>::empty() + row_targets(li, gbase, j + 1))
                            =~= row@ + row_targets(li, gbase, j + 1));
                    }
                }
                j = j + 1;
            }
            proof {
                assert(row_targets(li, gbase, BTNS_IN_ROW + 1) =~= Seq::<NavBtn>::empty());
                assert(row@ + Seq::<NavBtn>::empty() =~= row@);
            }
            rows.push(row);
            proof {
                assert(rows@.map_values(|r2: Vec<NavBtn>| r2@) =~= rv.push(row_targets(
                    li,
                    gbase,
                    1,
                )));
                assert(grid_rows(li, gbase) == seq![row_targets(li, gbase, 1)] + grid_rows(
                    li,
                    gbase + PAGES_IN_ROW,
                ));
                assert(rv + (seq![row_targets(li, gbase, 1)] + grid_rows(li, gbase + PAGES_IN_ROW))
                    =~= rv.push(row_targets(li, gbase, 1)) + grid_rows(li, gbase + PAGES_IN_ROW));
            }
            proof {
                gbase = gbase + PAGES_IN_ROW as int;
            }
            if base <= usize::MAX - PAGES_IN_ROW {
                base = base + PAGES_IN_ROW;
            } else {
                // the next row's first target would lie past any index that
                // fits, so the grid ends with the degenerate row
                let mut lr: Vec<NavBtn> = Vec::new();
                lr.push(NavBtn::Last(last_idx));
                let ghost rv2 = rows@.map_values(|r2: Vec<NavBtn>| r2@);
                rows.push(lr);
                done = true;
                proof {
                    assert(!(gbase + PAGES_IN_BTN < li));
                    assert(grid_rows(li, gbase) == seq![seq![NavBtn::Last(li as usize)]]);
                    assert(rows@.map_values(|r2: Vec<NavBtn>| r2@) =~= rv2.push(seq![
                        NavBtn::Last(last_idx),
                    ]));
                    assert(rv2 + seq![seq![NavBtn::Last(li as usize)]] =~= rv2.push(seq![
                        NavBtn::Last(last_idx),
                    ]));
                }
            }
        } else {
            let mut lr: Vec<NavBtn> = Vec::new();
            lr.push(NavBtn::Last(last_idx));
            rows.push(lr);
            done = true;
            proof {
                assert(!(gbase + PAGES_IN_BTN < li));
                assert(grid_rows(li, gbase) == seq![seq![NavBtn::Last(li as usize)]]);
                assert(rows@.map_values(|r2: Vec<NavBtn>| r2@) =~= rv.push(seq![
                    NavBtn::Last(last_idx),
                ]));
                assert(rv + seq![seq![NavBtn::Last(li as usize)]] =~= rv.push(seq![
                    NavBtn::Last(last_idx),
                ]));
            }
        }
    }
    let head = rows.remove(0);
    let mut first_row: Vec<NavBtn> = Vec::new();
    first_row.push(NavBtn::First);
    let ghost head0 = head@;
    let mut hi: usize = 0;
    while hi < head.len()
        invariant
            hi <= head@.len(),
            head@ == head0,
            first_row@ == seq![NavBtn::First] + head0.take(hi as int),
        decreases head@.len() - hi,
    {
        first_row.push(head[hi]);
        hi = hi + 1;
        proof {
            assert(seq![NavBtn::First] + head0.take(hi as int) =~= (seq![NavBtn::First]
                + head0.take(hi - 1)).push(head0[hi - 1]));
        }
    }
    proof {
        assert(head0.take(head0.len() as int) =~= head0);
    }
    rows.insert(0, first_row);
    proof {
        let grid = grid_rows(li, 0);
        assert(rows@.map_values(|r2: Vec<NavBtn>| r2@) =~= grid.update(0, seq![NavBtn::First]
            + grid[0]));
    }
    rows
}

/// What a jump button's callback data targets: data of the form `n-`
/// followed by a page number. Anything else is not a navigation callback.
pub open spec fn nav_callback_target(s: Seq<char>) -> Option<int> {
    if s.len() >= 2 && s[0] == 'n' && s[1] == '-' {
        usize_parse_spec(s.skip(2))
    } else {
        None
    }
}

/// Parses the callback data a pressed jump button sends back.
pub fn parse_nav_callback(data: &str) -> (r: Option<usize>)
    ensures
        match r {
            Some(x) => nav_callback_target(data@) == Some(x as int),
            None => nav_callback_target(data@) is None,
        },
{
    let v = str_chars(data);
    if v.len() >= 2 && v[0] == 'n' && v[1] == '-' {
        let mut tail: Vec<char> = Vec::new();
        let mut i: usize = 2;
        while i < v.len()
            invariant
                2 <= i <= v@.len(),
                v@ == data@,
                tail@ == data@.skip(2).take(i - 2),
            decreases v@.len() - i,
        {
            tail.push(v[i]);
            i = i + 1;
            proof {
                assert(data@.skip(2).take(i - 2) =~= data@.skip(2).take(i - 3).push(data@[i - 1]));
            }
        }
        proof {
            assert(data@.skip(2).take(data@.len() - 2) =~= data@.skip(2));
        }
        crate::text::parse_usize(tail.as_slice())
    } else {
        None
    }
}

/// Law (navigation round trip): the callback data written for any page
/// index parses back to exactly that index, so every button the grid or
/// the navigation row emits targets the page it names.
pub proof fn lemma_nav_callback_round_trip(idx: usize)
    ensures
        nav_callback_target("n-"@ + crate::text::dec_rep(idx as int)) == Some(idx as int),
{
    reveal_strlit("n-");
    crate::text::lemma_dec_rep_val(idx as int);
    let d = crate::text::dec_rep(idx as int);
    let s = "n-"@ + d;
    assert(s.len() >= 2);
    assert(s[0] == 'n');
    assert(s[1] == '-');
    assert(s.skip(2) =~= d);
    assert(d[0] != '+') by {
        assert(crate::text::is_digit(d[0]));
    }
    assert(crate::text::usize_parse_spec(d) == Some(idx as int)) by {
        assert(crate::text::dec_val(d) == idx as int);
    }
}

} // verus!
