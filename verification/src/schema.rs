//! Preparing a schema of services: taking one service out of its source text.

use vstd::prelude::*;
use vstd::string::*;

use crate::text::{concat2, concat3, has_part, part_at};

verus! {

/// The first place, from `i` on, where the text goes on with the part.
pub open spec fn first_place(s: Seq<char>, part: Seq<char>, i: int) -> Option<int>
    decreases s.len() - i + 1,
{
    if i < 0 || i > s.len() {
        None
    } else if part_at(s, i, part) {
        Some(i)
    } else {
        first_place(s, part, i + 1)
    }
}

/// The place behind the brace that closes the last one open, when `depth` braces are
/// open at place `i`.
pub open spec fn close_behind(s: Seq<char>, i: int, depth: int) -> Option<int>
    decreases s.len() - i,
{
    if i < 0 || i >= s.len() {
        None
    } else if s[i] == '{' {
        close_behind(s, i + 1, depth + 1)
    } else if s[i] == '}' {
        if depth == 1 {
            Some(i + 1)
        } else {
            close_behind(s, i + 1, depth - 1)
        }
    } else {
        close_behind(s, i + 1, depth)
    }
}

/// The text without the first block `service NAME { ... }` of that name. Where there
/// is none, or where it is not closed, the text stays.
pub open spec fn without_service(s: Seq<char>, name: Seq<char>) -> Seq<char> {
    match first_place(s, "service "@ + name + " {"@, 0) {
        None => s,
        Some(start) => match close_behind(s, start, 0) {
            None => s,
            Some(end) => s.take(start) + s.skip(end),
        },
    }
}

proof fn lemma_first_place(s: Seq<char>, part: Seq<char>, i: int)
    ensures
        match first_place(s, part, i) {
            Some(p) => i <= p <= s.len() && part_at(s, p, part),
            None => true,
        },
    decreases s.len() - i + 1,
{
    if 0 <= i <= s.len() && !part_at(s, i, part) {
        lemma_first_place(s, part, i + 1);
    }
}

fn find_part(s: &str, part: &str) -> (r: Option<usize>)
    ensures
        match r {
            Some(p) => first_place(s@, part@, 0) == Some(p as int) && p <= s@.len(),
            None => first_place(s@, part@, 0) is None,
        },
{
    let n: usize = s.unicode_len();
    let mut i: usize = 0;
    while i < n
        invariant
            i <= n,
            n == s@.len(),
            first_place(s@, part@, 0) == first_place(s@, part@, i as int),
        decreases n - i,
    {
        if has_part(s, i, part) {
            return Some(i);
        }
        i += 1;
    }
    if has_part(s, n, part) {
        Some(n)
    } else {
        assert(first_place(s@, part@, n + 1) is None);
        None
    }
}

fn find_close(s: &str, start: usize) -> (r: Option<usize>)
    requires
        start <= s@.len(),
    ensures
        match r {
            Some(e) => close_behind(s@, start as int, 0) == Some(e as int) && start <= e
                <= s@.len(),
            None => close_behind(s@, start as int, 0) is None,
        },
{
    let n: usize = s.unicode_len();
    let mut depth: i128 = 0;
    let mut i: usize = start;
    while i < n
        invariant
            start <= i <= n,
            n == s@.len(),
            -(i as int) <= depth <= i,
            close_behind(s@, start as int, 0) == close_behind(s@, i as int, depth as int),
        decreases n - i,
    {
        let c = s.get_char(i);
        if c == '{' {
            depth = depth + 1;
        } else if c == '}' {
            if depth == 1 {
                return Some(i + 1);
            }
            depth = depth - 1;
        }
        i += 1;
    }
    None
}

/// Takes the first block `service NAME { ... }` of a name out of a schema's text.
pub fn strip_service(src: &str, name: &str) -> (r: String)
    ensures
        r@ == without_service(src@, name@),
{
    let needle = concat3("service ", name, " {");
    match find_part(src, needle.as_str()) {
        None => src.to_owned(),
        Some(start) => match find_close(src, start) {
            None => src.to_owned(),
            Some(end) => {
                let n: usize = src.unicode_len();
                let head = src.substring_char(0, start);
                let tail = src.substring_char(end, n);
                assert(head@ =~= src@.take(start as int));
                assert(tail@ =~= src@.skip(end as int));
                concat2(head, tail)
            },
        },
    }
}

/// Is the result the text without what stands from `start` up to `end`, which begins
/// with the service's name and ends with a closing brace?
pub open spec fn taken_out(s: Seq<char>, name: Seq<char>, start: int, end: int) -> bool {
    &&& 0 <= start < end <= s.len()
    &&& part_at(s, start, "service "@ + name + " {"@)
    &&& s[end - 1] == '}'
    &&& without_service(s, name) == s.take(start) + s.skip(end)
}

/// Only a block that begins with the service's name and ends with a brace is ever
/// taken out, and all the rest of the text stays as it is.
pub proof fn law_only_the_service_goes(s: Seq<char>, name: Seq<char>)
    ensures
        without_service(s, name) == s || exists|start: int, end: int|
            #[trigger] taken_out(s, name, start, end),
{
    let needle = "service "@ + name + " {"@;
    lemma_first_place(s, needle, 0);
    match first_place(s, needle, 0) {
        Some(start) => {
            lemma_close_behind(s, start, 0);
            match close_behind(s, start, 0) {
                Some(end) => {
                    assert(taken_out(s, name, start, end));
                },
                None => {},
            }
        },
        None => {},
    }
}

pub proof fn lemma_close_behind(s: Seq<char>, i: int, depth: int)
    ensures
        match close_behind(s, i, depth) {
            Some(e) => 0 <= i < e <= s.len() && s[e - 1] == '}',
            None => true,
        },
    decreases s.len() - i,
{
    if 0 <= i < s.len() {
        if s[i] == '{' {
            lemma_close_behind(s, i + 1, depth + 1);
        } else if s[i] == '}' {
            if depth != 1 {
                lemma_close_behind(s, i + 1, depth - 1);
            }
        } else {
            lemma_close_behind(s, i + 1, depth);
        }
    }
}

} // verus!
