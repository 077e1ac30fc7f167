//! Which modules log: the reading of a list of module names.
use vstd::prelude::*;
use vstd::string::*;

verus! {

/// The characters that Unicode counts as white space.
pub open spec fn is_space(c: char) -> bool {
    let n = c as u32;
    ||| 0x9 <= n <= 0xd
    ||| n == 0x20
    ||| n == 0x85
    ||| n == 0xa0
    ||| n == 0x1680
    ||| 0x2000 <= n <= 0x200a
    ||| n == 0x2028
    ||| n == 0x2029
    ||| n == 0x202f
    ||| n == 0x205f
    ||| n == 0x3000
}

/// `s` without the white space at its start.
pub open spec fn start_trimmed(s: Seq<char>) -> Seq<char>
    decreases s.len(),
{
    if s.len() > 0 && is_space(s[0]) {
        start_trimmed(s.skip(1))
    } else {
        s
    }
}

/// `s` without the white space at its end.
pub open spec fn end_trimmed(s: Seq<char>) -> Seq<char>
    decreases s.len(),
{
    if s.len() > 0 && is_space(s.last()) {
        end_trimmed(s.drop_last())
    } else {
        s
    }
}

/// `s` without the white space around it.
pub open spec fn trimmed(s: Seq<char>) -> Seq<char> {
    end_trimmed(start_trimmed(s))
}

/// The small letter of an ASCII capital; any other character stands for itself.
pub open spec fn small(c: char) -> u32 {
    if 0x41 <= c as u32 <= 0x5a {
        (c as u32 + 0x20) as u32
    } else {
        c as u32
    }
}

/// The two texts differ at most in the case of their ASCII letters.
pub open spec fn same_text(a: Seq<char>, b: Seq<char>) -> bool {
    a.len() == b.len() && forall|i: int| 0 <= i < a.len() ==> small(#[trigger] a[i]) == small(b[i])
}

/// `[from, to)` is one of the parts into which the commas divide `s`.
pub open spec fn is_part(s: Seq<char>, from: int, to: int) -> bool {
    &&& 0 <= from <= to <= s.len()
    &&& from == 0 || s[from - 1] == ','
    &&& to == s.len() || s[to] == ','
    &&& forall|i: int| from <= i < to ==> #[trigger] s[i] != ','
}

/// A part of the list asks for `module`; `locks` is another name of `gkl`.
pub open spec fn asks_for(part: Seq<char>, module: Seq<char>) -> bool {
    same_text(trimmed(part), module) || (module == "gkl"@ && same_text(trimmed(part), "locks"@))
}

/// The list switches everything off.
pub open spec fn all_off(list: Seq<char>) -> bool {
    list.len() == 0 || list == "0"@ || same_text(list, "false"@)
}

/// The list switches everything on.
pub open spec fn all_on(list: Seq<char>) -> bool {
    list == "1"@ || same_text(list, "true"@) || same_text(list, "all"@)
}

/// Some part of the list asks for `module`.
pub open spec fn listed(list: Seq<char>, module: Seq<char>) -> bool {
    exists|from: int, to: int| #[trigger]
        is_part(list, from, to) && asks_for(list.subrange(from, to), module)
}

/// What the setting `raw` says of `module`. Where nothing is set, `gkl` logs.
pub open spec fn enabled(raw: Option<&str>, module: Seq<char>) -> bool {
    let list = trimmed(match raw {
        Some(text) => text@,
        None => "gkl"@,
    });
    !all_off(list) && (all_on(list) || listed(list, module))
}

fn space(c: char) -> (r: bool)
    ensures
        r == is_space(c),
{
    let n: u32 = c as u32;
    (0x9 <= n && n <= 0xd) || n == 0x20 || n == 0x85 || n == 0xa0 || n == 0x1680 || (0x2000 <= n && n
        <= 0x200a) || n == 0x2028 || n == 0x2029 || n == 0x202f || n == 0x205f || n == 0x3000
}

/// The text without the white space around it.
pub fn trim<'a>(s: &'a str) -> (r: &'a str)
    ensures
        r@ == trimmed(s@),
{
    let n: usize = s.unicode_len();
    let mut from: usize = 0;
    assert(s@.skip(0) =~= s@);
    while from < n && space(s.get_char(from))
        invariant
            from <= n == s@.len(),
            start_trimmed(s@) == start_trimmed(s@.skip(from as int)),
        decreases n - from,
    {
        assert(s@.skip(from as int).skip(1) =~= s@.skip(from + 1));
        from = from + 1;
    }
    let mut to: usize = n;
    let ghost rest = s@.skip(from as int);
    assert(start_trimmed(s@) == rest);
    assert(s@.subrange(from as int, to as int) =~= rest);
    while to > from && space(s.get_char(to - 1))
        invariant
            from <= to <= n == s@.len(),
            end_trimmed(rest) == end_trimmed(s@.subrange(from as int, to as int)),
        decreases to,
    {
        assert(s@.subrange(from as int, to as int).drop_last() =~= s@.subrange(
            from as int,
            to - 1,
        ));
        to = to - 1;
    }
    s.substring_char(from, to)
}

fn small_code(c: char) -> (r: u32)
    ensures
        r == small(c),
{
    let n: u32 = c as u32;
    if 0x41 <= n && n <= 0x5a {
        n + 0x20
    } else {
        n
    }
}

/// Whether the two texts differ at most in the case of their ASCII letters.
pub fn same_ignoring_case(a: &str, b: &str) -> (r: bool)
    ensures
        r == same_text(a@, b@),
{
    let n: usize = a.unicode_len();
    if n != b.unicode_len() {
        return false;
    }
    let mut i: usize = 0;
    while i < n
        invariant
            i <= n == a@.len() == b@.len(),
            forall|j: int| 0 <= j < i ==> small(#[trigger] a@[j]) == small(b@[j]),
        decreases n - i,
    {
        if small_code(a.get_char(i)) != small_code(b.get_char(i)) {
            assert(small(a@[i as int]) != small(b@[i as int]));
            return false;
        }
        i = i + 1;
    }
    true
}

fn equal(a: &str, b: &str) -> (r: bool)
    ensures
        r == (a@ == b@),
{
    let n: usize = a.unicode_len();
    if n != b.unicode_len() {
        return false;
    }
    let mut i: usize = 0;
    while i < n
        invariant
            i <= n == a@.len() == b@.len(),
            forall|j: int| 0 <= j < i ==> #[trigger] a@[j] == b@[j],
        decreases n - i,
    {
        if a.get_char(i) != b.get_char(i) {
            return false;
        }
        i = i + 1;
    }
    assert(a@ =~= b@);
    true
}

fn part_asks_for(part: &str, module: &str) -> (r: bool)
    ensures
        r == asks_for(part@, module@),
{
    let name = trim(part);
    same_ignoring_case(name, module) || (equal(module, "gkl") && same_ignoring_case(name, "locks"))
}

/// A part of the list that starts before `from` ends before `from` too.
proof fn lemma_part_stays_behind(s: Seq<char>, from: int, a: int, b: int)
    requires
        is_part(s, a, b),
        0 < from <= s.len(),
        s[from - 1] == ',',
        a < from,
    ensures
        b < from,
{
    if b >= from {
        assert(s[from - 1] != ',');
    }
}

/// Whether some part of the comma-separated `list` asks for `module`.
fn some_part_asks_for(list: &str, module: &str) -> (r: bool)
    ensures
        r == listed(list@, module@),
{
    let n: usize = list.unicode_len();
    let mut from: usize = 0;
    let mut to: usize = 0;
    while to < n
        invariant
            from <= to <= n == list@.len(),
            from == 0 || list@[from - 1] == ',',
            forall|i: int| from <= i < to ==> #[trigger] list@[i] != ',',
            forall|a: int, b: int| #[trigger] is_part(list@, a, b) && a < from ==> !asks_for(
                list@.subrange(a, b),
                module@,
            ),
        decreases n - to,
    {
        if list.get_char(to) == ',' {
            assert(is_part(list@, from as int, to as int));
            if part_asks_for(list.substring_char(from, to), module) {
                return true;
            }
            proof {
                assert forall|a: int, b: int| #[trigger]
                    is_part(list@, a, b) && a < to + 1 implies !asks_for(
                    list@.subrange(a, b),
                    module@,
                ) by {
                    lemma_part_stays_behind(list@, to + 1, a, b);
                    if a > from {
                        assert(list@[a - 1] != ',');
                    } else if a == from && b < to {
                        assert(list@[b] != ',');
                    }
                }
            }
            from = to + 1;
        }
        to = to + 1;
    }
    assert(is_part(list@, from as int, to as int));
    let r = part_asks_for(list.substring_char(from, to), module);
    proof {
        if !r {
            assert forall|a: int, b: int| #[trigger] is_part(list@, a, b) implies !asks_for(
                list@.subrange(a, b),
                module@,
            ) by {
                if a > from {
                    assert(list@[a - 1] != ',');
                } else if a == from && b < to {
                    assert(list@[b] != ',');
                }
            }
        }
    }
    r
}

/// Whether `module` logs under the setting `raw`: nothing for an empty text, `0` or
/// `false`; everything for `1`, `true` or `all`; else the modules of a
/// comma-separated list. Without a setting `gkl` logs.
pub fn log_enabled(raw: Option<&str>, module: &str) -> (r: bool)
    ensures
        r == enabled(raw, module@),
{
    let list = trim(
        match raw {
            Some(text) => text,
            None => "gkl",
        },
    );
    if list.unicode_len() == 0 || equal(list, "0") || same_ignoring_case(list, "false") {
        return false;
    }
    if equal(list, "1") || same_ignoring_case(list, "true") || same_ignoring_case(list, "all") {
        return true;
    }
    some_part_asks_for(list, module)
}

} // verus!
