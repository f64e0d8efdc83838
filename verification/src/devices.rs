//! Finding the trackpad in the kernel's list of input devices.
//!
//! The list is text in blocks that a blank line separates, one block for each
//! device. The line `N: Name="..."` of a block holds the name of the device, and
//! the line `H: Handlers=...` what it can be reached by.

use vstd::prelude::*;
use vstd::string::*;

verus! {

/// Where the first blank line at or behind `i` starts, or the end of the text.
pub open spec fn break_at(s: Seq<char>, i: int) -> int
    decreases s.len() - i,
{
    if i + 1 >= s.len() {
        s.len() as int
    } else if s[i] == '\n' && s[i + 1] == '\n' {
        i
    } else {
        break_at(s, i + 1)
    }
}

/// The text cut at its blank lines.
pub open spec fn blocks(s: Seq<char>) -> Seq<Seq<char>>
    decreases s.len(),
{
    let i = break_at(s, 0);
    if 0 <= i && i + 1 < s.len() {
        seq![s.take(i)] + blocks(s.skip(i + 2))
    } else {
        seq![s]
    }
}

/// Where the first line at or behind `i` ends.
pub open spec fn line_end(s: Seq<char>, i: int) -> int
    decreases s.len() - i,
{
    if i >= s.len() {
        s.len() as int
    } else if s[i] == '\n' {
        i
    } else {
        line_end(s, i + 1)
    }
}

/// A line without the carriage return that is part of its ending.
pub open spec fn without_return(s: Seq<char>) -> Seq<char> {
    if s.len() > 0 && s.last() == '\r' {
        s.drop_last()
    } else {
        s
    }
}

/// The lines of a block, without their endings.
pub open spec fn lines(s: Seq<char>) -> Seq<Seq<char>>
    decreases s.len(),
{
    let i = line_end(s, 0);
    if s.len() == 0 {
        Seq::empty()
    } else if 0 <= i < s.len() {
        seq![without_return(s.take(i))] + lines(s.skip(i + 1))
    } else {
        seq![s]
    }
}

/// What follows `prefix` in the last of the lines that start with it.
pub open spec fn last_field(lines: Seq<Seq<char>>, prefix: Seq<char>) -> Option<Seq<char>>
    decreases lines.len(),
{
    if lines.len() == 0 {
        None
    } else if prefix.is_prefix_of(lines.last()) {
        Some(lines.last().skip(prefix.len() as int))
    } else {
        last_field(lines.drop_last(), prefix)
    }
}

/// A text without the quotes at its end.
pub open spec fn without_quotes(s: Seq<char>) -> Seq<char>
    decreases s.len(),
{
    if s.len() > 0 && s.last() == '"' {
        without_quotes(s.drop_last())
    } else {
        s
    }
}

/// The characters with the Unicode property `White_Space`.
pub open spec fn white(c: char) -> bool {
    let u = c as u32;
    ||| 0x09 <= u <= 0x0d
    ||| u == 0x20
    ||| u == 0x85
    ||| u == 0xa0
    ||| u == 0x1680
    ||| 0x2000 <= u <= 0x200a
    ||| u == 0x2028
    ||| u == 0x2029
    ||| u == 0x202f
    ||| u == 0x205f
    ||| u == 0x3000
}

/// Where the first white space at or behind `i` is.
pub open spec fn word_end(s: Seq<char>, i: int) -> int
    decreases s.len() - i,
{
    if i >= s.len() {
        s.len() as int
    } else if white(s[i]) {
        i
    } else {
        word_end(s, i + 1)
    }
}

/// The end of a word is within the text.
pub proof fn lemma_word_end(s: Seq<char>, i: int)
    requires
        0 <= i <= s.len(),
    ensures
        i <= word_end(s, i) <= s.len(),
    decreases s.len() - i,
{
    if i < s.len() {
        lemma_word_end(s, i + 1);
    }
}

/// The words of a text: what stands between its white space.
pub open spec fn words(s: Seq<char>) -> Seq<Seq<char>>
    decreases s.len(),
{
    if s.len() == 0 {
        Seq::empty()
    } else if white(s[0]) {
        words(s.skip(1))
    } else {
        proof {
            lemma_word_end(s, 1);
        }
        let e = word_end(s, 0);
        seq![s.take(e)] + words(s.skip(e))
    }
}

/// The first of the words that starts with `prefix`.
pub open spec fn first_word(words: Seq<Seq<char>>, prefix: Seq<char>) -> Option<Seq<char>>
    decreases words.len(),
{
    if words.len() == 0 {
        None
    } else if prefix.is_prefix_of(words[0]) {
        Some(words[0])
    } else {
        first_word(words.skip(1), prefix)
    }
}

/// The event handler of the device that a block describes, if its name is `name`.
pub open spec fn handler_in(block: Seq<char>, name: Seq<char>) -> Option<Seq<char>> {
    let own = last_field(lines(block), "N: Name=\""@);
    let handlers = last_field(lines(block), "H: Handlers="@);
    if own is Some && handlers is Some && without_quotes(own->0) == name {
        first_word(words(handlers->0), "event"@)
    } else {
        None
    }
}

/// The event handler in the first of the blocks that has one for `name`.
pub open spec fn first_handler(blocks: Seq<Seq<char>>, name: Seq<char>) -> Option<Seq<char>>
    decreases blocks.len(),
{
    if blocks.len() == 0 {
        None
    } else if handler_in(blocks[0], name) is Some {
        handler_in(blocks[0], name)
    } else {
        first_handler(blocks.skip(1), name)
    }
}

/// A stretch of `text` stands for a text.
spec fn holds(text: Seq<char>, range: Option<(usize, usize)>, s: Option<Seq<char>>) -> bool {
    match range {
        Some((a, z)) => a <= z <= text.len() && s == Some(text.subrange(a as int, z as int)),
        None => s is None,
    }
}

fn is_white(c: char) -> (r: bool)
    ensures
        r == white(c),
{
    let u = c as u32;
    (0x09 <= u && u <= 0x0d) || u == 0x20 || u == 0x85 || u == 0xa0 || u == 0x1680 || (0x2000 <= u
        && u <= 0x200a) || u == 0x2028 || u == 0x2029 || u == 0x202f || u == 0x205f || u == 0x3000
}

/// The characters of a text.
fn chars_of(s: &str) -> (r: Vec<char>)
    ensures
        r@ == s@,
{
    let mut r: Vec<char> = Vec::new();
    for c in it: s.chars()
        invariant
            r@ == it.seq().take(it.index()),
            it.seq() == s@,
    {
        r.push(c);
    }
    r
}

/// Where the first blank line at or behind `lo` starts.
fn find_break(text: &Vec<char>, lo: usize) -> (r: usize)
    requires
        lo <= text@.len(),
    ensures
        lo <= r <= text@.len(),
        r == lo + break_at(text@.skip(lo as int), 0),
        r < text@.len() ==> r + 1 < text@.len(),
{
    let ghost s = text@.skip(lo as int);
    let n = text.len();
    let mut i: usize = lo;
    while i < n && i + 1 < n
        invariant
            lo <= i <= n,
            n == text@.len(),
            s == text@.skip(lo as int),
            break_at(s, 0) == break_at(s, i - lo),
        decreases n - i,
    {
        if text[i] == '\n' && text[i + 1] == '\n' {
            return i;
        }
        i = i + 1;
    }
    n
}

/// Where the line that starts at `lo` ends, in a block that ends at `hi`.
fn find_line_end(text: &Vec<char>, lo: usize, hi: usize) -> (r: usize)
    requires
        lo <= hi <= text@.len(),
    ensures
        lo <= r <= hi,
        r == lo + line_end(text@.subrange(lo as int, hi as int), 0),
{
    let ghost s = text@.subrange(lo as int, hi as int);
    let mut i: usize = lo;
    while i < hi
        invariant
            lo <= i <= hi <= text@.len(),
            s == text@.subrange(lo as int, hi as int),
            line_end(s, 0) == line_end(s, i - lo),
        decreases hi - i,
    {
        if text[i] == '\n' {
            return i;
        }
        i = i + 1;
    }
    hi
}

/// Whether the text from `lo` to `hi` starts with `prefix`.
fn starts_with(text: &Vec<char>, lo: usize, hi: usize, prefix: &Vec<char>) -> (r: bool)
    requires
        lo <= hi <= text@.len(),
    ensures
        r == prefix@.is_prefix_of(text@.subrange(lo as int, hi as int)),
{
    let ghost s = text@.subrange(lo as int, hi as int);
    if prefix.len() > hi - lo {
        return false;
    }
    let mut i: usize = 0;
    while i < prefix.len()
        invariant
            lo <= hi <= text@.len(),
            i <= prefix@.len() <= hi - lo,
            s == text@.subrange(lo as int, hi as int),
            s.take(i as int) == prefix@.take(i as int),
        decreases prefix@.len() - i,
    {
        if text[lo + i] != prefix[i] {
            proof {
                assert(s[i as int] != prefix@[i as int]);
                assert(s.take(prefix@.len() as int)[i as int] == s[i as int]);
            }
            return false;
        }
        assert(s.take(i + 1) == s.take(i as int).push(s[i as int]));
        assert(prefix@.take(i + 1) == prefix@.take(i as int).push(prefix@[i as int]));
        i = i + 1;
    }
    assert(prefix@.take(i as int) == prefix@);
    true
}

/// Where the text from `lo` to `hi` ends without the quotes at its end.
fn trim_quotes(text: &Vec<char>, lo: usize, hi: usize) -> (r: usize)
    requires
        lo <= hi <= text@.len(),
    ensures
        lo <= r <= hi,
        text@.subrange(lo as int, r as int) == without_quotes(
            text@.subrange(lo as int, hi as int),
        ),
{
    let mut r: usize = hi;
    while r > lo && text[r - 1] == '"'
        invariant
            lo <= r <= hi <= text@.len(),
            without_quotes(text@.subrange(lo as int, r as int)) == without_quotes(
                text@.subrange(lo as int, hi as int),
            ),
        decreases r,
    {
        assert(text@.subrange(lo as int, r as int).drop_last() == text@.subrange(
            lo as int,
            r - 1,
        ));
        r = r - 1;
    }
    r
}

/// The first word that starts with `prefix` in the text from `lo` to `hi`.
fn find_word(text: &Vec<char>, lo: usize, hi: usize, prefix: &Vec<char>) -> (r: Option<
    (usize, usize),
>)
    requires
        lo <= hi <= text@.len(),
    ensures
        match r {
            Some((a, z)) => a <= z <= text@.len() && first_word(
                words(text@.subrange(lo as int, hi as int)),
                prefix@,
            ) == Some(text@.subrange(a as int, z as int)),
            None => first_word(words(text@.subrange(lo as int, hi as int)), prefix@) is None,
        },
{
    let ghost all = first_word(words(text@.subrange(lo as int, hi as int)), prefix@);
    let mut i: usize = lo;
    while i < hi
        invariant
            lo <= i <= hi <= text@.len(),
            all == first_word(words(text@.subrange(lo as int, hi as int)), prefix@),
            all == first_word(words(text@.subrange(i as int, hi as int)), prefix@),
        decreases hi - i,
    {
        let ghost s = text@.subrange(i as int, hi as int);
        if is_white(text[i]) {
            assert(s.skip(1) == text@.subrange(i + 1, hi as int));
            i = i + 1;
        } else {
            let mut e: usize = i + 1;
            while e < hi && !is_white(text[e])
                invariant
                    i < e <= hi <= text@.len(),
                    s == text@.subrange(i as int, hi as int),
                    word_end(s, 0) == word_end(s, e - i),
                    !white(s[0]),
                decreases hi - e,
            {
                e = e + 1;
            }
            proof {
                assert(word_end(s, 0) == e - i);
                assert(s.take(e - i) == text@.subrange(i as int, e as int));
                assert(s.skip(e - i) == text@.subrange(e as int, hi as int));
                assert(words(s)[0] == s.take(e - i));
                assert(words(s).skip(1) == words(s.skip(e - i)));
            }
            if starts_with(text, i, e, prefix) {
                return Some((i, e));
            }
            i = e;
        }
    }
    None
}

/// Whether the text from `lo` to `hi` is `other`.
fn is_text(text: &Vec<char>, lo: usize, hi: usize, other: &Vec<char>) -> (r: bool)
    requires
        lo <= hi <= text@.len(),
    ensures
        r == (text@.subrange(lo as int, hi as int) == other@),
{
    let r = other.len() == hi - lo && starts_with(text, lo, hi, other);
    proof {
        if r {
            assert(text@.subrange(lo as int, hi as int).take(other@.len() as int) == text@.subrange(
                lo as int,
                hi as int,
            ));
        }
    }
    r
}

/// The event handler of the device in the block from `lo` to `hi`, if the name of
/// the device is `name`.
fn find_handler(text: &Vec<char>, lo: usize, hi: usize, name: &Vec<char>) -> (r: Option<
    (usize, usize),
>)
    requires
        lo <= hi <= text@.len(),
    ensures
        match r {
            Some((a, z)) => a <= z <= text@.len() && handler_in(
                text@.subrange(lo as int, hi as int),
                name@,
            ) == Some(text@.subrange(a as int, z as int)),
            None => handler_in(text@.subrange(lo as int, hi as int), name@) is None,
        },
{
    let name_prefix = chars_of("N: Name=\"");
    let handlers_prefix = chars_of("H: Handlers=");
    let event_prefix = chars_of("event");
    let mut own: Option<(usize, usize)> = None;
    let mut handlers: Option<(usize, usize)> = None;
    let ghost block = text@.subrange(lo as int, hi as int);
    let ghost mut seen = Seq::<Seq<char>>::empty();
    let mut i: usize = lo;
    while i < hi
        invariant
            lo <= i <= hi <= text@.len(),
            name_prefix@ == "N: Name=\""@,
            handlers_prefix@ == "H: Handlers="@,
            lines(block) == seen + lines(text@.subrange(i as int, hi as int)),
            holds(text@, own, last_field(seen, "N: Name=\""@)),
            holds(text@, handlers, last_field(seen, "H: Handlers="@)),
        decreases hi - i,
    {
        let ghost s = text@.subrange(i as int, hi as int);
        let e = find_line_end(text, i, hi);
        let mut z: usize = e;
        if e < hi && e > i && text[e - 1] == '\r' {
            z = e - 1;
        }
        let ghost line = text@.subrange(i as int, z as int);
        let next = if e < hi {
            e + 1
        } else {
            hi
        };
        proof {
            let k = line_end(s, 0);
            assert(s.take(k) == text@.subrange(i as int, e as int));
            assert(line == (if e < hi {
                without_return(s.take(k))
            } else {
                s
            }));
            assert(s.skip(s.len() as int) == Seq::<char>::empty());
            assert(lines(s) == seq![line] + lines(s.skip(next - i)));
            assert(text@.subrange(next as int, hi as int) == s.skip(next - i));
            assert(seen + (seq![line] + lines(s.skip(next - i))) == seen.push(line) + lines(
                s.skip(next - i),
            ));
            assert(seen.push(line).drop_last() == seen);
            seen = seen.push(line);
            reveal_strlit("N: Name=\"");
            reveal_strlit("H: Handlers=");
        }
        if starts_with(text, i, z, &name_prefix) {
            assert(line[0] == line.subrange(0, name_prefix@.len() as int)[0]);
            assert(!handlers_prefix@.is_prefix_of(line)) by {
                assert(line[0] != handlers_prefix@[0]);
                if handlers_prefix@.is_prefix_of(line) {
                    assert(line[0] == line.subrange(0, handlers_prefix@.len() as int)[0]);
                }
            }
            own = Some((i + name_prefix.len(), z));
            assert(line.skip(name_prefix@.len() as int) == text@.subrange(
                i + name_prefix@.len(),
                z as int,
            ));
        } else if starts_with(text, i, z, &handlers_prefix) {
            handlers = Some((i + handlers_prefix.len(), z));
            assert(line.skip(handlers_prefix@.len() as int) == text@.subrange(
                i + handlers_prefix@.len(),
                z as int,
            ));
        }
        i = next;
    }
    proof {
        assert(text@.subrange(hi as int, hi as int) == Seq::<char>::empty());
        assert(lines(block) == seen);
    }
    match (own, handlers) {
        (Some((a, z)), Some((b, y))) => {
            let t = trim_quotes(text, a, z);
            if is_text(text, a, t, name) {
                find_word(text, b, y, &event_prefix)
            } else {
                None
            }
        },
        _ => None,
    }
}

/// The event handler of the first device in the list whose name is `name`.
fn find_device(text: &Vec<char>, name: &Vec<char>) -> (r: Option<(usize, usize)>)
    ensures
        holds(text@, r, first_handler(blocks(text@), name@)),
{
    let n = text.len();
    let mut lo: usize = 0;
    assert(text@.skip(0) == text@);
    loop
        invariant
            lo <= n == text@.len(),
            first_handler(blocks(text@.skip(lo as int)), name@) == first_handler(
                blocks(text@),
                name@,
            ),
        decreases n - lo,
    {
        let ghost s = text@.skip(lo as int);
        let hi = find_break(text, lo);
        proof {
            assert(s.take(hi - lo) == text@.subrange(lo as int, hi as int));
            assert(blocks(s)[0] == s.take(hi - lo));
        }
        let found = find_handler(text, lo, hi, name);
        if found.is_some() {
            return found;
        }
        if hi >= n {
            assert(blocks(s).skip(1) == Seq::<Seq<char>>::empty());
            assert(first_handler(blocks(s).skip(1), name@) is None);
            return None;
        }
        proof {
            assert(s.skip(hi - lo + 2) == text@.skip(hi + 2));
            assert(blocks(s).skip(1) == blocks(s.skip(hi - lo + 2)));
        }
        lo = hi + 2;
    }
}

/// What to say where no device has the name that `quoted` shows.
pub open spec fn not_found(quoted: Seq<char>) -> Seq<char> {
    "No input device named "@ + quoted + " found in /proc/bus/input/devices"@
}

/// The message for a device name, which is given in quotes.
pub fn not_found_message(quoted: &str) -> (r: String)
    ensures
        r@ == not_found(quoted@),
        r@ == "No input device named "@ + quoted@ + " found in /proc/bus/input/devices"@,
{
    let mut r = "No input device named ".to_owned();
    r.append(quoted);
    r.append(" found in /proc/bus/input/devices");
    r
}

/// A text in quotes, as `str`'s `Debug` writes it.
pub uninterp spec fn quoted(s: Seq<char>) -> Seq<char>;

/// Puts a text in quotes, with escapes where they are needed.
///
/// Calls the `Debug` of `str`, by `format!`. What it writes is taken to depend on
/// the text alone, and is named [`quoted`]; nothing more is said of it.
#[verifier::external_body]
fn quote(s: &str) -> (r: String)
    ensures
        r@ == quoted(s@),
{
    format!("{:?}", s)
}

/// The path of the event device of the input device with the given name, or what
/// to say where the list has none.
pub fn find_event_device_by_name(content: &str, device_name: &str) -> (r: Result<String, String>)
    ensures
        match first_handler(blocks(content@), device_name@) {
            Some(handler) => r is Ok && r->Ok_0@ == "/dev/input/"@ + handler,
            None => r is Err && r->Err_0@ == not_found(quoted(device_name@)),
        },
        r matches Err(e) ==> e@ == "No input device named "@ + quoted(device_name@)
            + " found in /proc/bus/input/devices"@,
{
    let text = chars_of(content);
    let name = chars_of(device_name);
    match find_device(&text, &name) {
        Some((a, z)) => {
            let mut path = "/dev/input/".to_owned();
            path.append(content.substring_char(a, z));
            Ok(path)
        },
        None => Err(not_found_message(quote(device_name).as_str())),
    }
}

proof fn lemma_break_found(s: Seq<char>, i: int, k: int)
    requires
        0 <= i <= k,
        k + 1 < s.len(),
        s[k] == '\n',
        s[k + 1] == '\n',
        forall|j: int| i <= j < k ==> !((#[trigger] s[j]) == '\n' && s[j + 1] == '\n'),
    ensures
        break_at(s, i) == k,
    decreases k - i,
{
    if i < k {
        assert(!(s[i] == '\n' && s[i + 1] == '\n'));
        lemma_break_found(s, i + 1, k);
    }
}

proof fn lemma_line_end_found(s: Seq<char>, i: int, k: int)
    requires
        0 <= i <= k <= s.len(),
        k < s.len() ==> s[k] == '\n',
        forall|j: int| i <= j < k ==> (#[trigger] s[j]) != '\n',
    ensures
        line_end(s, i) == k,
    decreases k - i,
{
    if i < k {
        lemma_line_end_found(s, i + 1, k);
    }
}

proof fn lemma_word_end_found(s: Seq<char>, i: int)
    requires
        0 <= i <= s.len(),
        forall|j: int| i <= j < s.len() ==> !white(#[trigger] s[j]),
    ensures
        word_end(s, i) == s.len(),
    decreases s.len() - i,
{
    if i < s.len() {
        lemma_word_end_found(s, i + 1);
    }
}

/// The list is searched in order: a block before a blank line comes first, and what
/// follows the blank line is searched only where that block has no handler for the
/// name.
pub proof fn law_blocks_are_searched_in_order(block: Seq<char>, rest: Seq<char>, name: Seq<char>)
    requires
        block.len() > 0 ==> block.last() != '\n',
        forall|j: int|
            0 <= j && j + 1 < block.len() ==> !((#[trigger] block[j]) == '\n' && block[j + 1]
                == '\n'),
    ensures
        first_handler(blocks(block + "\n\n"@ + rest), name) == (if handler_in(block, name) is Some {
            handler_in(block, name)
        } else {
            first_handler(blocks(rest), name)
        }),
{
    let s = block + "\n\n"@ + rest;
    let n = block.len() as int;
    reveal_strlit("\n\n");
    assert(s[n] == '\n' && s[n + 1] == '\n');
    assert forall|j: int| 0 <= j < n implies !((#[trigger] s[j]) == '\n' && s[j + 1] == '\n') by {
        assert(s[j] == block[j]);
        if j + 1 < n {
            assert(s[j + 1] == block[j + 1]);
        }
    }
    lemma_break_found(s, 0, n);
    assert(s.take(n) == block);
    assert(s.skip(n + 2) == rest);
    assert(blocks(s) == seq![block] + blocks(rest));
    assert(blocks(s).skip(1) == blocks(rest));
}

/// What `break_at` gives is the first blank line, or the end where there is none.
proof fn lemma_break_at(s: Seq<char>, i: int)
    requires
        0 <= i <= s.len(),
    ensures
        ({
            let k = break_at(s, i);
            &&& i <= k <= s.len()
            &&& k < s.len() ==> k + 1 < s.len() && s[k] == '\n' && s[k + 1] == '\n'
            &&& forall|j: int|
                i <= j < k && j + 1 < s.len() ==> !((#[trigger] s[j]) == '\n' && s[j + 1] == '\n')
        }),
    decreases s.len() - i,
{
    if i + 1 < s.len() && !(s[i] == '\n' && s[i + 1] == '\n') {
        lemma_break_at(s, i + 1);
    }
}

proof fn lemma_line_end(s: Seq<char>, i: int)
    requires
        0 <= i <= s.len(),
    ensures
        i <= line_end(s, i) <= s.len(),
        line_end(s, i) < s.len() ==> s[line_end(s, i)] == '\n',
        forall|j: int| i <= j < line_end(s, i) ==> (#[trigger] s[j]) != '\n',
    decreases s.len() - i,
{
    if i < s.len() && s[i] != '\n' {
        lemma_line_end(s, i + 1);
    }
}

/// The line break behind the last line makes no difference to the lines.
proof fn lemma_last_line_break(s: Seq<char>)
    requires
        s.len() > 0,
        s.last() != '\n',
        s.last() != '\r',
    ensures
        lines(s.push('\n')) == lines(s),
    decreases s.len(),
{
    let t = s.push('\n');
    let k = line_end(s, 0);
    lemma_line_end(s, 0);
    lemma_line_end_found(t, 0, k);
    assert(t.take(k) == s.take(k));
    if k < s.len() {
        assert(t.skip(k + 1) == s.skip(k + 1).push('\n'));
        lemma_last_line_break(s.skip(k + 1));
    } else {
        assert(s.take(k) == s);
        assert(t.skip(k + 1) == Seq::<char>::empty());
        assert(lines(t.skip(k + 1)) == Seq::<Seq<char>>::empty());
        assert(lines(t) == seq![s]);
    }
}

/// What is found stays found: in a list that has a device for the name, a blank line
/// and any further text behind the list leave the answer as it is. The list is not
/// to end in a carriage return and a line break. There the line break would become
/// part of the blank line and the carriage return part of the last line.
pub proof fn law_further_text_changes_nothing(list: Seq<char>, rest: Seq<char>, name: Seq<char>)
    requires
        first_handler(blocks(list), name) is Some,
        list.len() >= 2 && list.last() == '\n' ==> list[list.len() - 2] != '\r',
    ensures
        first_handler(blocks(list + "\n\n"@ + rest), name) == first_handler(blocks(list), name),
    decreases list.len(),
{
    let s = list + "\n\n"@ + rest;
    let n = list.len() as int;
    let k = break_at(list, 0);
    reveal_strlit("\n\n");
    lemma_break_at(list, 0);
    assert forall|j: int| 0 <= j < n implies #[trigger] s[j] == list[j] by {}
    assert(s[n] == '\n' && s[n + 1] == '\n');
    if k < n {
        let more = list.skip(k + 2);
        lemma_break_found(s, 0, k);
        assert(s.take(k) == list.take(k));
        assert(s.skip(k + 2) == more + "\n\n"@ + rest);
        assert(blocks(list).skip(1) == blocks(more));
        assert(blocks(s).skip(1) == blocks(more + "\n\n"@ + rest));
        if handler_in(list.take(k), name) is None {
            law_further_text_changes_nothing(more, rest, name);
        }
    } else {
        assert(blocks(list).skip(1) == Seq::<Seq<char>>::empty());
        assert(first_handler(blocks(list).skip(1), name) is None);
        if n > 0 && list.last() == '\n' {
            let block = list.drop_last();
            assert(block.push('\n') == list);
            if n == 1 {
                lemma_line_end_found(list, 0, 0);
                assert(list.take(0) == Seq::<char>::empty());
                assert(lines(list.skip(1)) == Seq::<Seq<char>>::empty());
                assert(lines(list) == seq![Seq::<char>::empty()]);
                reveal_strlit("N: Name=\"");
                assert(lines(list).drop_last() == Seq::<Seq<char>>::empty());
                assert(handler_in(list, name) is None);
            } else {
                assert(!(list[n - 2] == '\n' && list[n - 1] == '\n'));
                lemma_last_line_break(block);
                lemma_break_found(s, 0, n - 1);
                assert(s.take(n - 1) == block);
                assert(blocks(s)[0] == block);
            }
        } else {
            lemma_break_found(s, 0, n);
            assert(s.take(n) == list);
            assert(blocks(s)[0] == list);
        }
    }
}

proof fn lemma_first_word(words: Seq<Seq<char>>, prefix: Seq<char>)
    ensures
        first_word(words, prefix) matches Some(w) ==> prefix.is_prefix_of(w),
    decreases words.len(),
{
    if words.len() > 0 {
        lemma_first_word(words.skip(1), prefix);
    }
}

/// What is found is the name of an event device, listed in a block that has the name
/// looked for.
pub proof fn law_found_is_an_event_device(blocks: Seq<Seq<char>>, name: Seq<char>)
    ensures
        first_handler(blocks, name) matches Some(h) ==> "event"@.is_prefix_of(h) && exists|i: int|
            0 <= i < blocks.len() && handler_in(#[trigger] blocks[i], name) == Some(h),
        first_handler(blocks, name) is None ==> forall|i: int|
            0 <= i < blocks.len() ==> handler_in(#[trigger] blocks[i], name) is None,
    decreases blocks.len(),
{
    if blocks.len() > 0 {
        let rest = blocks.skip(1);
        let handlers = last_field(lines(blocks[0]), "H: Handlers="@);
        lemma_first_word(words(handlers->0), "event"@);
        law_found_is_an_event_device(rest, name);
        if handler_in(blocks[0], name) is None {
            if first_handler(rest, name) is Some {
                let i = choose|i: int|
                    0 <= i < rest.len() && handler_in(#[trigger] rest[i], name) == first_handler(
                        rest,
                        name,
                    );
                assert(blocks[i + 1] == rest[i]);
            } else {
                assert forall|i: int| 0 <= i < blocks.len() implies handler_in(
                    #[trigger] blocks[i],
                    name,
                ) is None by {
                    if i > 0 {
                        assert(rest[i - 1] == blocks[i]);
                    }
                }
            }
        }
    }
}

/// A device that the list shows with its name and an event device is found by that
/// name.
pub proof fn law_listed_device_is_found(name: Seq<char>, handler: Seq<char>)
    requires
        forall|j: int| 0 <= j < name.len() ==> (#[trigger] name[j]) != '\n',
        name.len() > 0 ==> name.last() != '"',
        forall|j: int| 0 <= j < handler.len() ==> !white(#[trigger] handler[j]),
        "event"@.is_prefix_of(handler),
    ensures
        handler_in("N: Name=\""@ + name + "\"\nH: Handlers="@ + handler, name) == Some(handler),
{
    let block = "N: Name=\""@ + name + "\"\nH: Handlers="@ + handler;
    reveal_strlit("N: Name=\"");
    reveal_strlit("\"\nH: Handlers=");
    reveal_strlit("H: Handlers=");
    reveal_strlit("event");
    let n = 9 + name.len() as int + 1;
    let first = "N: Name=\""@ + name + seq!['"'];
    let second = "H: Handlers="@ + handler;
    assert(block.len() == n + 13 + handler.len());
    assert forall|j: int| 0 <= j < n implies (#[trigger] block[j]) != '\n' by {
        if 9 <= j < 9 + name.len() {
            assert(block[j] == name[j - 9]);
        }
    }
    assert(block[n] == '\n');
    lemma_line_end_found(block, 0, n);
    assert(block.take(n) == first);
    assert(block.skip(n + 1) == second);
    assert forall|j: int| 0 <= j < second.len() implies (#[trigger] second[j]) != '\n' by {
        if j >= 12 {
            assert(second[j] == handler[j - 12]);
            assert(!white(handler[j - 12]));
        }
    }
    lemma_line_end_found(second, 0, second.len() as int);
    assert(lines(second) == seq![second]);
    assert(without_return(first) == first);
    let all = seq![first, second];
    assert(lines(block) == all);
    assert(all.last() == second && all.drop_last() == seq![first]);
    assert(seq![first].last() == first && seq![first].drop_last() == Seq::<Seq<char>>::empty());
    assert(second[0] == 'H');
    assert(!"N: Name=\""@.is_prefix_of(second)) by {
        if "N: Name=\""@.is_prefix_of(second) {
            assert(second.subrange(0, 9)[0] == 'N');
        }
    }
    assert(first.subrange(0, 9) == "N: Name=\""@);
    assert(first.skip(9) == name.push('"'));
    assert(last_field(seq![first], "N: Name=\""@) == Some(name.push('"')));
    assert(last_field(all, "N: Name=\""@) == Some(name.push('"')));
    assert(name.push('"').drop_last() == name);
    assert(without_quotes(name) == name);
    assert(without_quotes(name.push('"')) == name);
    assert(second.subrange(0, 12) == "H: Handlers="@);
    assert(second.skip(12) == handler);
    assert(last_field(all, "H: Handlers="@) == Some(handler));
    lemma_word_end_found(handler, 0);
    assert(handler.take(handler.len() as int) == handler);
    assert(handler.skip(handler.len() as int) == Seq::<char>::empty());
    assert(words(handler.skip(handler.len() as int)) == Seq::<Seq<char>>::empty());
    assert(!white(handler[0]));
    assert(words(handler) == seq![handler]);
}

/// A text in which no line is blank is one block.
pub proof fn law_text_without_blank_lines_is_one_block(s: Seq<char>, name: Seq<char>)
    requires
        forall|j: int| 0 <= j && j + 1 < s.len() ==> !((#[trigger] s[j]) == '\n' && s[j + 1] == '\n'),
    ensures
        blocks(s) == seq![s],
        first_handler(blocks(s), name) == handler_in(s, name),
{
    lemma_break_at(s, 0);
    let k = break_at(s, 0);
    if k < s.len() {
        assert(!(s[k] == '\n' && s[k + 1] == '\n'));
    }
    assert(blocks(s)[0] == s);
    assert(blocks(s).skip(1) == Seq::<Seq<char>>::empty());
    assert(first_handler(blocks(s).skip(1), name) is None);
}

/// The lines are what stands between the line breaks: a line ends at the first of
/// them, and loses the carriage return before it, if there is one. What follows the
/// last line break is a line unless it is empty, and keeps all it has.
pub proof fn law_lines_end_at_line_breaks(line: Seq<char>, rest: Seq<char>)
    requires
        forall|j: int| 0 <= j < line.len() ==> (#[trigger] line[j]) != '\n',
    ensures
        lines(line.push('\n') + rest) == seq![
            if line.len() > 0 && line.last() == '\r' {
                line.drop_last()
            } else {
                line
            },
        ] + lines(rest),
        line.len() > 0 ==> lines(line) == seq![line],
        lines(Seq::empty()) == Seq::<Seq<char>>::empty(),
{
    let s = line.push('\n') + rest;
    let n = line.len() as int;
    assert forall|j: int| 0 <= j < n implies (#[trigger] s[j]) != '\n' by {
        assert(s[j] == line[j]);
    }
    assert(s[n] == '\n');
    lemma_line_end_found(s, 0, n);
    assert(s.take(n) == line);
    assert(s.skip(n + 1) == rest);
    lemma_line_end_found(line, 0, n);
}

/// The lines of a block put together, with a line break between one and the next.
pub open spec fn joined(lines: Seq<Seq<char>>) -> Seq<char>
    decreases lines.len(),
{
    if lines.len() == 0 {
        Seq::empty()
    } else if lines.len() == 1 {
        lines[0]
    } else {
        lines[0].push('\n') + joined(lines.skip(1))
    }
}

/// Texts that are lines: no line break in them, no carriage return at their end, and
/// the last of them is not empty.
pub open spec fn are_lines(texts: Seq<Seq<char>>) -> bool {
    &&& forall|i: int, j: int|
        0 <= i < texts.len() && 0 <= j < texts[i].len() ==> (#[trigger] texts[i][j]) != '\n'
    &&& forall|i: int|
        0 <= i < texts.len() && (#[trigger] texts[i]).len() > 0 ==> texts[i].last() != '\r'
    &&& texts.len() > 0 ==> texts.last().len() > 0
}

/// Lines that are put together to a block come apart again as they were.
pub proof fn law_lines_come_apart_again(texts: Seq<Seq<char>>)
    requires
        are_lines(texts),
    ensures
        lines(joined(texts)) == texts,
    decreases texts.len(),
{
    if texts.len() > 0 {
        let rest = texts.skip(1);
        let first = texts[0];
        assert forall|j: int| 0 <= j < first.len() implies (#[trigger] first[j]) != '\n' by {
            assert(texts[0][j] != '\n');
        }
        if texts.len() == 1 {
            assert(texts.last() == first);
            law_lines_end_at_line_breaks(first, Seq::empty());
            assert(texts == seq![first]);
        } else {
            assert forall|i: int, j: int|
                0 <= i < rest.len() && 0 <= j < rest[i].len() implies (#[trigger] rest[i][j])
                != '\n' by {
                assert(texts[i + 1][j] != '\n');
            }
            assert forall|i: int| 0 <= i < rest.len() && (#[trigger] rest[i]).len() > 0 implies rest[
            i].last() != '\r' by {
                assert(rest[i] == texts[i + 1]);
            }
            assert(rest.last() == texts.last());
            law_lines_come_apart_again(rest);
            law_lines_end_at_line_breaks(first, joined(rest));
            assert(seq![first] + rest == texts);
        }
    }
}

proof fn lemma_last_field(lines: Seq<Seq<char>>, prefix: Seq<char>, i: int)
    requires
        0 <= i < lines.len(),
        prefix.is_prefix_of(lines[i]),
        forall|j: int| i < j < lines.len() ==> !prefix.is_prefix_of(#[trigger] lines[j]),
    ensures
        last_field(lines, prefix) == Some(lines[i].skip(prefix.len() as int)),
    decreases lines.len(),
{
    if i < lines.len() - 1 {
        let fewer = lines.drop_last();
        assert(!prefix.is_prefix_of(lines[lines.len() - 1]));
        assert forall|j: int| i < j < fewer.len() implies !prefix.is_prefix_of(#[trigger] fewer[j]) by {
            assert(fewer[j] == lines[j]);
        }
        lemma_last_field(fewer, prefix, i);
    }
}

proof fn lemma_no_field(lines: Seq<Seq<char>>, prefix: Seq<char>)
    requires
        forall|j: int| 0 <= j < lines.len() ==> !prefix.is_prefix_of(#[trigger] lines[j]),
    ensures
        last_field(lines, prefix) is None,
    decreases lines.len(),
{
    if lines.len() > 0 {
        let fewer = lines.drop_last();
        assert(!prefix.is_prefix_of(lines[lines.len() - 1]));
        assert forall|j: int| 0 <= j < fewer.len() implies !prefix.is_prefix_of(#[trigger] fewer[j]) by {
            assert(fewer[j] == lines[j]);
        }
        lemma_no_field(fewer, prefix);
    }
}

proof fn lemma_quotes_are_cut(text: Seq<char>, quotes: nat)
    requires
        text.len() > 0 ==> text.last() != '"',
    ensures
        without_quotes(text + Seq::new(quotes, |i: int| '"')) == text,
    decreases quotes,
{
    let s = text + Seq::new(quotes, |i: int| '"');
    if quotes > 0 {
        assert(s.last() == '"');
        assert(s.drop_last() == text + Seq::new((quotes - 1) as nat, |i: int| '"'));
        lemma_quotes_are_cut(text, (quotes - 1) as nat);
    } else {
        assert(s == text);
    }
}

/// A device is found in its block, however many lines the block has and wherever in
/// it they stand: the last line with a name and the last line with handlers count.
/// The name is the text of its line up to the quotes at the end; for that name, and
/// for no other, the handler is the first word of the handlers that starts with
/// `event`.
pub proof fn law_device_is_found_in_its_block(
    block: Seq<char>,
    n: int,
    h: int,
    name: Seq<char>,
    quotes: nat,
    handlers: Seq<char>,
    other: Seq<char>,
)
    requires
        0 <= n < lines(block).len(),
        0 <= h < lines(block).len(),
        lines(block)[n] == "N: Name=\""@ + name + Seq::new(quotes, |i: int| '"'),
        name.len() > 0 ==> name.last() != '"',
        lines(block)[h] == "H: Handlers="@ + handlers,
        forall|j: int|
            n < j < lines(block).len() ==> !"N: Name=\""@.is_prefix_of(#[trigger] lines(block)[j]),
        forall|j: int|
            h < j < lines(block).len() ==> !"H: Handlers="@.is_prefix_of(
                #[trigger] lines(block)[j],
            ),
        other != name,
    ensures
        handler_in(block, name) == first_word(words(handlers), "event"@),
        handler_in(block, other) is None,
{
    let texts = lines(block);
    let (a, b) = ("N: Name=\""@, "H: Handlers="@);
    let own = name + Seq::new(quotes, |i: int| '"');
    assert(texts[n] == a + own);
    assert(texts[n].subrange(0, a.len() as int) == a);
    assert(texts[n].skip(a.len() as int) == own);
    assert(texts[h].subrange(0, b.len() as int) == b);
    assert(texts[h].skip(b.len() as int) == handlers);
    lemma_last_field(texts, a, n);
    lemma_last_field(texts, b, h);
    lemma_quotes_are_cut(name, quotes);
}

/// Nothing is found in a block without a line with a name, or without one with
/// handlers.
pub proof fn law_incomplete_block_has_no_device(block: Seq<char>, name: Seq<char>)
    requires
        (forall|j: int|
            0 <= j < lines(block).len() ==> !"N: Name=\""@.is_prefix_of(#[trigger] lines(block)[j]))
            || (forall|j: int|
            0 <= j < lines(block).len() ==> !"H: Handlers="@.is_prefix_of(
                #[trigger] lines(block)[j],
            )),
    ensures
        handler_in(block, name) is None,
{
    let texts = lines(block);
    if forall|j: int| 0 <= j < texts.len() ==> !"N: Name=\""@.is_prefix_of(#[trigger] texts[j]) {
        lemma_no_field(texts, "N: Name=\""@);
    } else {
        lemma_no_field(texts, "H: Handlers="@);
    }
}

/// A line that is neither a name nor handlers makes no difference, wherever in the
/// block it stands.
pub proof fn law_other_lines_change_nothing(
    block: Seq<char>,
    longer: Seq<char>,
    i: int,
    line: Seq<char>,
    name: Seq<char>,
)
    requires
        0 <= i <= lines(block).len(),
        lines(longer) == lines(block).insert(i, line),
        !"N: Name=\""@.is_prefix_of(line),
        !"H: Handlers="@.is_prefix_of(line),
    ensures
        handler_in(longer, name) == handler_in(block, name),
{
    lemma_other_line(lines(block), i, line, "N: Name=\""@);
    lemma_other_line(lines(block), i, line, "H: Handlers="@);
}

proof fn lemma_other_line(texts: Seq<Seq<char>>, i: int, line: Seq<char>, prefix: Seq<char>)
    requires
        0 <= i <= texts.len(),
        !prefix.is_prefix_of(line),
    ensures
        last_field(texts.insert(i, line), prefix) == last_field(texts, prefix),
    decreases texts.len(),
{
    let more = texts.insert(i, line);
    if i == texts.len() {
        assert(more.last() == line && more.drop_last() == texts);
    } else {
        assert(more.last() == texts.last());
        assert(more.drop_last() == texts.drop_last().insert(i, line));
        lemma_other_line(texts.drop_last(), i, line, prefix);
    }
}

proof fn lemma_word_end_at(s: Seq<char>, i: int, k: int)
    requires
        0 <= i <= k <= s.len(),
        k < s.len() ==> white(s[k]),
        forall|j: int| i <= j < k ==> !white(#[trigger] s[j]),
    ensures
        word_end(s, i) == k,
    decreases k - i,
{
    if i < k {
        lemma_word_end_at(s, i + 1, k);
    }
}

/// The words are what stands between white space: white space at the front is no
/// part of any, and a word goes up to the next white space or the end.
pub proof fn law_words_end_at_white_space(space: char, word: Seq<char>, rest: Seq<char>)
    requires
        white(space),
        word.len() > 0,
        forall|j: int| 0 <= j < word.len() ==> !white(#[trigger] word[j]),
    ensures
        words(Seq::empty()) == Seq::<Seq<char>>::empty(),
        words(seq![space] + rest) == words(rest),
        words(word) == seq![word],
        words(word.push(space) + rest) == seq![word] + words(rest),
{
    let n = word.len() as int;
    assert((seq![space] + rest).skip(1) == rest);
    lemma_word_end_at(word, 0, n);
    assert(!white(word[0]));
    assert(word.take(n) == word);
    assert(word.skip(n) == Seq::<char>::empty());
    assert(words(word.skip(n)) == Seq::<Seq<char>>::empty());
    let s = word.push(space) + rest;
    assert forall|j: int| 0 <= j < n implies !white(#[trigger] s[j]) by {
        assert(s[j] == word[j]);
    }
    assert(s[n] == space);
    assert(!white(s[0]));
    lemma_word_end_at(s, 0, n);
    assert(s.take(n) == word);
    assert(s.skip(n) == seq![space] + rest);
    assert((seq![space] + rest)[0] == space);
    assert(words(s.skip(n)) == words(rest));
}

/// Of the characters up to the delete character the space and the five controls from
/// the tab on are white space, and none is that comes behind the ideographic space.
pub proof fn law_white_space_is_rare(c: char)
    ensures
        c as u32 <= 0x7f ==> (white(c) <==> c == ' ' || c == '\t' || c == '\n' || c as u32 == 0x0b
            || c as u32 == 0x0c || c == '\r'),
        white(c) ==> c as u32 <= 0x3000,
{
}

/// The word that is found is the first of those that start so, if any does.
pub proof fn law_first_word_is_the_first(words: Seq<Seq<char>>, prefix: Seq<char>, i: int)
    requires
        0 <= i <= words.len(),
        forall|j: int| 0 <= j < i ==> !prefix.is_prefix_of(#[trigger] words[j]),
        i < words.len() ==> prefix.is_prefix_of(words[i]),
    ensures
        first_word(words, prefix) == (if i < words.len() {
            Some(words[i])
        } else {
            None
        }),
    decreases words.len(),
{
    if i > 0 {
        let rest = words.skip(1);
        assert(!prefix.is_prefix_of(words[0]));
        assert forall|j: int| 0 <= j < i - 1 implies !prefix.is_prefix_of(#[trigger] rest[j]) by {
            assert(rest[j] == words[j + 1]);
        }
        if i < words.len() {
            assert(rest[i - 1] == words[i]);
        }
        law_first_word_is_the_first(rest, prefix, i - 1);
    }
}

} // verus!
