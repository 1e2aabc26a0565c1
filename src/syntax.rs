//! The text form of path queries: `$` followed by segments such as `.name`,
//! `.*`, `[3]`, `[-1]`, `['name']`, `[*]`, and their recursive forms `..name`,
//! `..*`, `..[...]`.

use vstd::prelude::*;
use crate::query::{Selector, Segment, Sel, Seg, segs_of};
use crate::text::{int_of, parse_int, string_of, chars_of};

verus! {

pub open spec fn is_delim(c: char) -> bool {
    c == '.' || c == '['
}

/// The end of the member name that starts at `i`.
pub open spec fn name_end(s: Seq<char>, i: int) -> int
    decreases s.len() - i,
{
    if i >= s.len() || i < 0 || is_delim(s[i]) {
        i
    } else {
        name_end(s, i + 1)
    }
}

/// The first position from `i` on that holds `c`, or the length of `s`.
pub open spec fn find_char(s: Seq<char>, i: int, c: char) -> int
    decreases s.len() - i,
{
    if i >= s.len() || i < 0 || s[i] == c {
        i
    } else {
        find_char(s, i + 1, c)
    }
}

/// The selector written between brackets from `i` (just after `[`) on, and the
/// position after the closing `]`.
pub open spec fn bracket_at(s: Seq<char>, i: int) -> Option<(Sel, int)> {
    if i < s.len() && s[i] == '*' {
        if i + 1 < s.len() && s[i + 1] == ']' {
            Some((Sel::All, i + 2))
        } else {
            None
        }
    } else if i < s.len() && (s[i] == '\'' || s[i] == '"') {
        let j = find_char(s, i + 1, s[i]);
        if j + 1 < s.len() && s[j + 1] == ']' {
            Some((Sel::Name(s.subrange(i + 1, j)), j + 2))
        } else {
            None
        }
    } else {
        let j = find_char(s, i, ']');
        if j < s.len() {
            match int_of(s.subrange(i, j)) {
                Some(v) => Some((Sel::Index(v), j + 1)),
                None => None,
            }
        } else {
            None
        }
    }
}

/// The selector written after a dot from `i` on: `*` or a member name.
pub open spec fn name_sel_at(s: Seq<char>, i: int) -> Option<(Sel, int)> {
    if i < s.len() && s[i] == '*' {
        Some((Sel::All, i + 1))
    } else {
        let j = name_end(s, i);
        if j > i {
            Some((Sel::Name(s.subrange(i, j)), j))
        } else {
            None
        }
    }
}

/// The segment written from `i` on, and the position after it.
pub open spec fn segment_at(s: Seq<char>, i: int) -> Option<(Seg, int)> {
    if i + 1 < s.len() && s[i] == '.' && s[i + 1] == '.' {
        let r = if i + 2 < s.len() && s[i + 2] == '[' {
            bracket_at(s, i + 3)
        } else {
            name_sel_at(s, i + 2)
        };
        match r {
            Some((sel, j)) => Some((Seg::Desc(sel), j)),
            None => None,
        }
    } else if i < s.len() && s[i] == '.' {
        match name_sel_at(s, i + 1) {
            Some((sel, j)) => Some((Seg::Child(sel), j)),
            None => None,
        }
    } else if i < s.len() && s[i] == '[' {
        match bracket_at(s, i + 1) {
            Some((sel, j)) => Some((Seg::Child(sel), j)),
            None => None,
        }
    } else {
        None
    }
}

/// The segments written from `i` to the end of `s`.
pub open spec fn segments_from(s: Seq<char>, i: int) -> Option<Seq<Seg>>
    decreases s.len() - i,
{
    if i >= s.len() {
        Some(Seq::empty())
    } else {
        match segment_at(s, i) {
            Some((g, j)) => if i < j <= s.len() {
                match segments_from(s, j) {
                    Some(rest) => Some(seq![g] + rest),
                    None => None,
                }
            } else {
                None
            },
            None => None,
        }
    }
}

/// The query that a path text spells, if it is well formed.
pub open spec fn query_of(s: Seq<char>) -> Option<Seq<Seg>> {
    if s.len() > 0 && s[0] == '$' {
        segments_from(s, 1)
    } else {
        None
    }
}

fn scan_name_end(cs: &Vec<char>, i: usize) -> (r: usize)
    requires
        i <= cs@.len(),
    ensures
        r as int == name_end(cs@, i as int),
        i <= r <= cs@.len(),
{
    let mut j = i;
    while j < cs.len() && cs[j] != '.' && cs[j] != '['
        invariant
            i <= j <= cs@.len(),
            name_end(cs@, i as int) == name_end(cs@, j as int),
        decreases cs@.len() - j,
    {
        j = j + 1;
    }
    j
}

fn scan_char(cs: &Vec<char>, i: usize, c: char) -> (r: usize)
    requires
        i <= cs@.len(),
    ensures
        r as int == find_char(cs@, i as int, c),
        i <= r <= cs@.len(),
        r < cs@.len() ==> cs@[r as int] == c,
{
    let mut j = i;
    while j < cs.len() && cs[j] != c
        invariant
            i <= j <= cs@.len(),
            find_char(cs@, i as int, c) == find_char(cs@, j as int, c),
        decreases cs@.len() - j,
    {
        j = j + 1;
    }
    j
}

fn bracket(cs: &Vec<char>, i: usize) -> (r: Option<(Selector, usize)>)
    requires
        i <= cs@.len(),
    ensures
        match r {
            Some((sel, j)) => bracket_at(cs@, i as int) == Some((sel@, j as int)) && j <= cs@.len(),
            None => bracket_at(cs@, i as int) is None,
        },
{
    let n = cs.len();
    if i < n && cs[i] == '*' {
        if i + 1 < n && cs[i + 1] == ']' {
            return Some((Selector::All, i + 2));
        }
        return None;
    }
    if i < n && (cs[i] == '\'' || cs[i] == '"') {
        let j = scan_char(cs, i + 1, cs[i]);
        if j < n && j + 1 < n && cs[j + 1] == ']' {
            let name = string_of(cs, i + 1, j);
            return Some((Selector::Name(name), j + 2));
        }
        return None;
    }
    let j = scan_char(cs, i, ']');
    if j < n {
        match parse_int(cs, i, j) {
            Some(v) => Some((Selector::Index(v), j + 1)),
            None => None,
        }
    } else {
        None
    }
}

fn name_sel(cs: &Vec<char>, i: usize) -> (r: Option<(Selector, usize)>)
    requires
        i <= cs@.len(),
    ensures
        match r {
            Some((sel, j)) => name_sel_at(cs@, i as int) == Some((sel@, j as int)) && j <= cs@.len(),
            None => name_sel_at(cs@, i as int) is None,
        },
{
    if i < cs.len() && cs[i] == '*' {
        return Some((Selector::All, i + 1));
    }
    let j = scan_name_end(cs, i);
    if j > i {
        let name = string_of(cs, i, j);
        Some((Selector::Name(name), j))
    } else {
        None
    }
}

fn segment(cs: &Vec<char>, i: usize) -> (r: Option<(Segment, usize)>)
    requires
        i <= cs@.len(),
    ensures
        match r {
            Some((g, j)) => segment_at(cs@, i as int) == Some((g@, j as int)) && j <= cs@.len(),
            None => segment_at(cs@, i as int) is None,
        },
{
    let n = cs.len();
    if i < n && i + 1 < n && cs[i] == '.' && cs[i + 1] == '.' {
        let r = if i + 2 < n && cs[i + 2] == '[' {
            bracket(cs, i + 3)
        } else {
            name_sel(cs, i + 2)
        };
        return match r {
            Some((sel, j)) => Some((Segment::Descendant(sel), j)),
            None => None,
        };
    }
    if i < n && cs[i] == '.' {
        return match name_sel(cs, i + 1) {
            Some((sel, j)) => Some((Segment::Child(sel), j)),
            None => None,
        };
    }
    if i < n && cs[i] == '[' {
        return match bracket(cs, i + 1) {
            Some((sel, j)) => Some((Segment::Child(sel), j)),
            None => None,
        };
    }
    None
}

/// Parses a path text into the segments of its query; `None` when it is not
/// well formed (see `query_of`).
pub fn parse_query(path: &str) -> (r: Option<Vec<Segment>>)
    ensures
        match r {
            Some(q) => query_of(path@) == Some(segs_of(q@)),
            None => query_of(path@) is None,
        },
{
    let cs = chars_of(path);
    if cs.len() == 0 || cs[0] != '$' {
        return None;
    }
    let mut segs: Vec<Segment> = Vec::new();
    let mut i: usize = 1;
    while i < cs.len()
        invariant
            1 <= i <= cs@.len(),
            cs@ == path@,
            cs@[0] == '$',
            segments_from(cs@, 1) == match segments_from(cs@, i as int) {
                Some(rest) => Some(segs_of(segs@) + rest),
                None => None::<Seq<Seg>>,
            },
        decreases cs@.len() - i,
    {
        match segment(&cs, i) {
            Some((g, j)) => {
                if j <= i {
                    return None;
                }
                proof {
                    assert(segs_of(segs@.push(g)) =~= segs_of(segs@) + seq![g@]);
                    match segments_from(cs@, j as int) {
                        Some(rest) => {
                            assert(segs_of(segs@) + (seq![g@] + rest) =~= segs_of(segs@.push(g)) + rest);
                        },
                        None => {},
                    }
                }
                segs.push(g);
                i = j;
            },
            None => {
                return None;
            },
        }
    }
    assert(segs_of(segs@) + Seq::<Seg>::empty() =~= segs_of(segs@));
    Some(segs)
}

} // verus!
