//! Reading what the command line and other programs say.

use crate::server::request::is_space;
use crate::text::{chars_of, decimal, push_decimal};
use vstd::prelude::*;
use vstd::string::*;

verus! {

/// The pieces of a text between separators.
pub open spec fn pieces(s: Seq<char>, sep: char) -> Seq<Seq<char>>
    decreases s.len(),
{
    if s.len() == 0 {
        seq![Seq::empty()]
    } else {
        let before = pieces(s.drop_last(), sep);
        if s.last() == sep {
            before.push(Seq::empty())
        } else {
            before.update(before.len() - 1, before.last().push(s.last()))
        }
    }
}

/// The contents of a list of texts.
pub open spec fn piece_views(v: Seq<Vec<char>>) -> Seq<Seq<char>> {
    Seq::new(v.len(), |i: int| v[i]@)
}

/// Splits a text at the separators.
pub fn split(s: &Vec<char>, sep: char) -> (out: Vec<Vec<char>>)
    ensures
        piece_views(out@) == pieces(s@, sep),
{
    let mut done: Vec<Vec<char>> = Vec::new();
    let mut current: Vec<char> = Vec::new();
    proof {
        assert(piece_views(done@).push(current@) =~= pieces(s@.take(0), sep));
    }
    for i in 0..s.len()
        invariant
            piece_views(done@).push(current@) == pieces(s@.take(i as int), sep),
    {
        let c: char = s[i];
        let ghost p = pieces(s@.take(i as int), sep);
        proof {
            assert(s@.take(i + 1).drop_last() =~= s@.take(i as int));
            assert(p.last() == current@);
        }
        if c == sep {
            let ghost before = piece_views(done@);
            let ghost was = current@;
            done.push(current);
            current = Vec::new();
            proof {
                assert(piece_views(done@) =~= before.push(was));
                assert(piece_views(done@).push(current@) =~= p.push(Seq::empty()));
            }
        } else {
            current.push(c);
            proof {
                assert(piece_views(done@).push(current@) =~= p.update(
                    p.len() - 1,
                    p.last().push(c),
                ));
            }
        }
    }
    let ghost before = piece_views(done@);
    let ghost last = current@;
    done.push(current);
    proof {
        assert(s@.take(s@.len() as int) =~= s@);
        assert(piece_views(done@) =~= before.push(last));
    }
    done
}

/// How many spaces the text begins with.
pub open spec fn leading(s: Seq<char>) -> nat
    decreases s.len(),
{
    if s.len() > 0 && is_space(s[0]) {
        1 + leading(s.skip(1))
    } else {
        0
    }
}

/// How many spaces stand behind everything else.
pub open spec fn trailing(s: Seq<char>) -> nat
    decreases s.len(),
{
    if s.len() > 0 && is_space(s.last()) {
        1 + trailing(s.drop_last())
    } else {
        0
    }
}

/// The text without the spaces around it.
pub open spec fn trimmed(s: Seq<char>) -> Seq<char> {
    let t = s.skip(leading(s) as int);
    t.take(t.len() - trailing(t))
}

/// The value of a text of decimal digits.
pub open spec fn digits_value(s: Seq<char>) -> nat
    decreases s.len(),
{
    if s.len() == 0 {
        0
    } else {
        digits_value(s.drop_last()) * 10 + digit_value(s.last())
    }
}

/// The value of a decimal digit.
pub open spec fn digit_value(c: char) -> nat {
    (c as u32 - '0' as u32) as nat
}

/// The character is a decimal digit.
pub open spec fn is_digit(c: char) -> bool {
    '0' <= c <= '9'
}

/// All characters are decimal digits, and there is one.
pub open spec fn all_digits(s: Seq<char>) -> bool {
    s.len() > 0 && forall|i: int| 0 <= i < s.len() ==> is_digit(#[trigger] s[i])
}

/// The text without a plus sign in front.
pub open spec fn unsigned(s: Seq<char>) -> Seq<char> {
    if s.len() > 0 && s[0] == '+' {
        s.skip(1)
    } else {
        s
    }
}

/// The number that a text says: decimal digits, a plus sign may stand in
/// front, and the number must be a machine number.
pub open spec fn parsed(s: Seq<char>) -> Option<usize> {
    let d = unsigned(s);
    if all_digits(d) && digits_value(d) <= usize::MAX {
        Some(digits_value(d) as usize)
    } else {
        None
    }
}

/// The number that characters `from` on say, all digits.
fn parse_digits(v: &Vec<char>, from: usize) -> (r: Option<usize>)
    requires
        from <= v@.len(),
    ensures
        match r {
            Some(n) => all_digits(v@.skip(from as int)) && digits_value(v@.skip(from as int)) == n,
            None => !all_digits(v@.skip(from as int)) || digits_value(v@.skip(from as int))
                > usize::MAX,
        },
{
    let ghost d = v@.skip(from as int);
    if from == v.len() {
        return None;
    }
    let mut value: usize = 0;
    let mut too_large: bool = false;
    for i in from..v.len()
        invariant
            from <= v@.len(),
            d == v@.skip(from as int),
            forall|j: int| 0 <= j < i - from ==> is_digit(#[trigger] d[j]),
            !too_large ==> value == digits_value(d.take(i - from)),
            too_large ==> digits_value(d.take(i - from)) > usize::MAX,
    {
        let c: char = v[i];
        proof {
            assert(d[i - from] == c);
            assert(d.take(i - from + 1).drop_last() =~= d.take(i - from));
            assert(d.take(i - from + 1).last() == c);
        }
        if c < '0' || c > '9' {
            proof {
                assert(!is_digit(d[i - from]));
            }
            return None;
        }
        let x: usize = (c as u32 - '0' as u32) as usize;
        if !too_large {
            match value.checked_mul(10) {
                Some(y) => match y.checked_add(x) {
                    Some(z) => {
                        value = z;
                    },
                    None => {
                        too_large = true;
                    },
                },
                None => {
                    too_large = true;
                },
            }
        }
    }
    proof {
        assert(d.take(v@.len() - from) =~= d);
    }
    if too_large {
        None
    } else {
        Some(value)
    }
}

/// The number that a text says.
pub fn parse_count(v: &Vec<char>) -> (r: Option<usize>)
    ensures
        r == parsed(v@),
{
    if v.len() > 0 && v[0] == '+' {
        parse_digits(v, 1)
    } else {
        proof {
            assert(v@.skip(0) =~= v@);
        }
        parse_digits(v, 0)
    }
}

/// The text without the spaces around it.
pub fn trim(v: &Vec<char>) -> (out: Vec<char>)
    ensures
        out@ == trimmed(v@),
{
    let mut a: usize = 0;
    let size: usize = v.len();
    proof {
        assert(v@.skip(0) =~= v@);
    }
    while a < size && crate::server::request::space(v[a])
        invariant
            a <= size,
            size == v@.len(),
            leading(v@) == a + leading(v@.skip(a as int)),
        decreases size - a,
    {
        proof {
            assert(v@.skip(a as int).skip(1) =~= v@.skip(a + 1));
            assert(v@.skip(a as int)[0] == v@[a as int]);
        }
        a = a + 1;
    }
    let ghost t = v@.skip(a as int);
    proof {
        if a < size {
            assert(t[0] == v@[a as int]);
        }
        assert(leading(t) == 0);
    }
    let mut b: usize = size;
    proof {
        assert(t.take(size - a) =~= t);
    }
    while b > a && crate::server::request::space(v[b - 1])
        invariant
            a <= b <= size,
            size == v@.len(),
            t == v@.skip(a as int),
            trailing(t) == (size - b) + trailing(t.take(b - a)),
        decreases b,
    {
        proof {
            let u = t.take(b - a);
            assert(u.drop_last() =~= t.take(b - a - 1));
            assert(u.last() == v@[b - 1]);
        }
        b = b - 1;
    }
    proof {
        if b > a {
            assert(t.take(b - a).last() == v@[b - 1]);
        }
        assert(trailing(t.take(b - a)) == 0);
    }
    let mut out: Vec<char> = Vec::new();
    for i in a..b
        invariant
            a <= b <= v@.len(),
            t == v@.skip(a as int),
            out@ == t.take(i - a),
    {
        out.push(v[i]);
        proof {
            assert(out@ =~= t.take(i - a + 1));
        }
    }
    out
}

/// The number of a piece; what is not a number counts as zero.
pub open spec fn number_or_zero(s: Seq<char>) -> usize {
    match parsed(trimmed(s)) {
        Some(n) => n,
        None => 0,
    }
}

/// The numbers of a list that is separated by commas.
pub open spec fn numbers(s: Seq<char>) -> Seq<usize> {
    pieces(s, ',').map_values(|p: Seq<char>| number_or_zero(p))
}

/// The scenarios of a stress test: cache sizes, separated by commas.
pub fn parse_scenarios(text: &str) -> (out: Vec<usize>)
    ensures
        out@ == numbers(text@),
{
    let parts = split(&chars_of(text), ',');
    let ghost ps = pieces(text@, ',');
    let mut out: Vec<usize> = Vec::new();
    for i in 0..parts.len()
        invariant
            piece_views(parts@) == ps,
            out@.len() == i,
            forall|j: int| 0 <= j < i ==> #[trigger] out@[j] == number_or_zero(ps[j]),
    {
        proof {
            assert(ps[i as int] == parts@[i as int]@);
        }
        let n: usize = match parse_count(&trim(&parts[i])) {
            Some(n) => n,
            None => 0,
        };
        out.push(n);
    }
    proof {
        assert(piece_views(parts@).len() == parts@.len());
        assert(out@ =~= numbers(text@));
    }
    out
}

/// The name of a scenario.
pub open spec fn scenario_name(max_hot: nat) -> Seq<char> {
    if max_hot == 0 {
        "in-memory"@
    } else {
        "streaming(max_hot="@ + decimal(max_hot) + ")"@
    }
}

/// The name of a scenario: everything in memory, or a number of layers.
pub fn scenario_label(max_hot: usize) -> (s: String)
    ensures
        s@ == scenario_name(max_hot as nat),
{
    if max_hot == 0 {
        String::from_str("in-memory")
    } else {
        let mut s = String::from_str("streaming(max_hot=");
        push_decimal(&mut s, max_hot as u64);
        s.append(")");
        s
    }
}

/// The first characters of an output, sixty at most.
pub fn preview(text: &str) -> (s: &str)
    ensures
        s@ == text@.take(if text@.len() < 60 {
            text@.len() as int
        } else {
            60
        }),
{
    let n: usize = text.unicode_len();
    let k: usize = if n < 60 {
        n
    } else {
        60
    };
    let s = text.substring_char(0, k);
    proof {
        assert(text@.subrange(0, k as int) =~= text@.take(k as int));
    }
    s
}

/// The text stands in `s` at place `i`.
pub open spec fn occurs_at(s: Seq<char>, what: Seq<char>, i: int) -> bool {
    0 <= i && i + what.len() <= s.len() && s.subrange(i, i + what.len()) == what
}

/// The first place at which the text stands, from `i` on.
pub open spec fn first_from(s: Seq<char>, what: Seq<char>, i: nat) -> Option<nat>
    decreases s.len() + 1 - i,
{
    if i > s.len() {
        None
    } else if occurs_at(s, what, i as int) {
        Some(i)
    } else {
        first_from(s, what, i + 1)
    }
}

/// Whether the text stands in `v` at place `i`.
fn stands_at(v: &Vec<char>, what: &Vec<char>, i: usize) -> (r: bool)
    requires
        i <= v@.len(),
    ensures
        r == occurs_at(v@, what@, i as int),
{
    let size: usize = v.len();
    if what.len() > size - i {
        return false;
    }
    for j in 0..what.len()
        invariant
            size == v@.len(),
            i + what@.len() <= size,
            forall|k: int| 0 <= k < j ==> v@[i + k] == #[trigger] what@[k],
    {
        if v[i + j] != what[j] {
            proof {
                let sub = v@.subrange(i as int, i + what@.len());
                assert(sub[j as int] == v@[i + j]);
            }
            return false;
        }
    }
    proof {
        assert(v@.subrange(i as int, i + what@.len()) =~= what@);
    }
    true
}

/// The first place at which the text stands.
fn find(v: &Vec<char>, what: &Vec<char>) -> (r: Option<usize>)
    ensures
        match r {
            Some(i) => first_from(v@, what@, 0) == Some(i as nat) && i + what@.len() <= v@.len(),
            None => first_from(v@, what@, 0) is None,
        },
{
    let size: usize = v.len();
    let mut i: usize = 0;
    loop
        invariant
            i <= size,
            size == v@.len(),
            first_from(v@, what@, 0) == first_from(v@, what@, i as nat),
        decreases size - i,
    {
        if stands_at(v, what, i) {
            return Some(i);
        }
        if i == size {
            proof {
                assert(first_from(v@, what@, i as nat + 1) is None);
            }
            return None;
        }
        i = i + 1;
    }
}

/// The length of the word at the beginning of a text.
pub open spec fn word_len(s: Seq<char>) -> nat
    decreases s.len(),
{
    if s.len() > 0 && !is_space(s[0]) {
        1 + word_len(s.skip(1))
    } else {
        0
    }
}

/// The first word of a text.
pub open spec fn first_word(s: Seq<char>) -> Option<Seq<char>> {
    let t = s.skip(leading(s) as int);
    if t.len() == 0 {
        None
    } else {
        Some(t.take(word_len(t) as int))
    }
}

/// The first word behind the mark, if the mark is there.
pub open spec fn word_behind(line: Seq<char>, mark: Seq<char>) -> Option<Seq<char>> {
    match first_from(line, mark, 0) {
        Some(i) => first_word(line.skip((i + mark.len()) as int)),
        None => None,
    }
}

/// The first word of the characters from `from` on.
fn word_from(v: &Vec<char>, from: usize) -> (r: Option<Vec<char>>)
    requires
        from <= v@.len(),
    ensures
        match r {
            Some(w) => first_word(v@.skip(from as int)) == Some(w@),
            None => first_word(v@.skip(from as int)) is None,
        },
{
    let size: usize = v.len();
    let ghost s = v@.skip(from as int);
    let mut a: usize = from;
    proof {
        assert(s.skip(0) =~= s);
    }
    while a < size && crate::server::request::space(v[a])
        invariant
            from <= a <= size,
            size == v@.len(),
            s == v@.skip(from as int),
            leading(s) == (a - from) + leading(s.skip(a - from)),
        decreases size - a,
    {
        proof {
            assert(s.skip(a - from).skip(1) =~= s.skip(a - from + 1));
            assert(s.skip(a - from)[0] == v@[a as int]);
        }
        a = a + 1;
    }
    let ghost t = s.skip(a - from);
    proof {
        if a < size {
            assert(t[0] == v@[a as int]);
        }
        assert(leading(t) == 0);
    }
    if a == size {
        return None;
    }
    let mut w: Vec<char> = Vec::new();
    let mut b: usize = a;
    proof {
        assert(t.skip(0) =~= t);
        assert(w@ =~= t.take(0));
    }
    while b < size && !crate::server::request::space(v[b])
        invariant
            from <= a <= b <= size,
            size == v@.len(),
            s == v@.skip(from as int),
            t == s.skip(a - from),
            word_len(t) == (b - a) + word_len(t.skip(b - a)),
            w@ == t.take(b - a),
        decreases size - b,
    {
        proof {
            assert(t.skip(b - a).skip(1) =~= t.skip(b - a + 1));
            assert(t.skip(b - a)[0] == v@[b as int]);
        }
        w.push(v[b]);
        proof {
            assert(w@ =~= t.take(b - a + 1));
        }
        b = b + 1;
    }
    proof {
        if b < size {
            assert(t.skip(b - a)[0] == v@[b as int]);
        }
        assert(word_len(t.skip(b - a)) == 0);
    }
    Some(w)
}

/// The first word behind the mark.
fn word_after(v: &Vec<char>, mark: &Vec<char>) -> (r: Option<Vec<char>>)
    ensures
        match r {
            Some(w) => word_behind(v@, mark@) == Some(w@),
            None => word_behind(v@, mark@) is None,
        },
{
    let size: usize = v.len();
    match find(v, mark) {
        Some(i) => word_from(v, i + mark.len()),
        None => None,
    }
}

/// A line that says how fast a prompt was read and an answer was written.
pub open spec fn is_timing(line: Seq<char>) -> bool {
    first_from(line, "Prompt:"@, 0) is Some && first_from(line, "Generation:"@, 0) is Some
}

/// The first timing line from line `i` on.
pub open spec fn timing_line(lines: Seq<Seq<char>>, i: nat) -> Option<Seq<char>>
    decreases lines.len() - i,
{
    if i >= lines.len() {
        None
    } else if is_timing(lines[i as int]) {
        Some(lines[i as int])
    } else {
        timing_line(lines, i + 1)
    }
}

/// A text of characters.
pub open spec fn opt_view(v: Option<Vec<char>>) -> Option<Seq<char>> {
    match v {
        Some(w) => Some(w@),
        None => None,
    }
}

/// The speeds that another program reports: the words behind the two marks of
/// its first timing line.
pub fn reported_speeds(output: &str) -> (r: (Option<Vec<char>>, Option<Vec<char>>))
    ensures
        match timing_line(pieces(output@, '\n'), 0) {
            Some(line) => opt_view(r.0) == word_behind(line, "Prompt:"@) && opt_view(r.1)
                == word_behind(line, "Generation:"@),
            None => r.0 is None && r.1 is None,
        },
{
    let lines = split(&chars_of(output), '\n');
    let prompt = chars_of("Prompt:");
    let generation = chars_of("Generation:");
    let ghost ls = pieces(output@, '\n');
    for i in 0..lines.len()
        invariant
            piece_views(lines@) == ls,
            ls == pieces(output@, '\n'),
            prompt@ == "Prompt:"@,
            generation@ == "Generation:"@,
            timing_line(ls, 0) == timing_line(ls, i as nat),
    {
        proof {
            assert(ls[i as int] == lines@[i as int]@);
            assert(ls.len() == lines@.len());
        }
        let has_prompt = find(&lines[i], &prompt).is_some();
        let has_generation = find(&lines[i], &generation).is_some();
        if has_prompt && has_generation {
            proof {
                assert(is_timing(ls[i as int]));
                assert(timing_line(ls, i as nat) == Some(ls[i as int]));
            }
            let read = word_after(&lines[i], &prompt);
            let written = word_after(&lines[i], &generation);
            return (read, written);
        }
    }
    proof {
        assert(ls.len() == lines@.len());
    }
    (None, None)
}

} // verus!
