//! Parsing one line of a recorded terminal session: a user command
//! (`$ cd <name>` or `$ ls`), a directory listing (`dir <name>`), or a file
//! listing (`<size> <name>`).

use vstd::prelude::*;

verus! {

/// One parsed line of the session.
#[derive(Debug)]
pub enum Entry {
    User(Command),
    Directory(Vec<u8>),
    File(u64, Vec<u8>),
}

/// A command the user typed.
#[derive(Debug)]
pub enum Command {
    Cd(Vec<u8>),
    Ls,
}

/// Whitespace, as the session format understands it.
pub open spec fn is_ws(b: u8) -> bool {
    b == 32 || b == 9 || b == 10 || b == 13
}

/// An ASCII decimal digit.
pub open spec fn is_digit(b: u8) -> bool {
    48 <= b <= 57
}

/// A character allowed in a file name.
pub open spec fn is_name_byte(b: u8) -> bool {
    (97 <= b <= 122) || (65 <= b <= 90) || is_digit(b) || b == 46 || b == 95
}

/// How many bytes a word starting at `i` consumes: up to the next
/// unescaped whitespace, a backslash escaping the byte after it.
pub open spec fn word_len(s: Seq<u8>, i: int) -> int
    decreases s.len() - i,
{
    if !(0 <= i < s.len()) {
        0
    } else if s[i] == 92 {
        if i + 1 < s.len() {
            2 + word_len(s, i + 2)
        } else {
            1
        }
    } else if is_ws(s[i]) {
        0
    } else {
        1 + word_len(s, i + 1)
    }
}

/// The unescaped content of the word starting at `i`.
pub open spec fn word_val(s: Seq<u8>, i: int) -> Seq<u8>
    decreases s.len() - i,
{
    if !(0 <= i < s.len()) {
        Seq::empty()
    } else if s[i] == 92 {
        if i + 1 < s.len() {
            seq![s[i + 1]] + word_val(s, i + 2)
        } else {
            Seq::empty()
        }
    } else if is_ws(s[i]) {
        Seq::empty()
    } else {
        seq![s[i]] + word_val(s, i + 1)
    }
}

/// The bytes from `i` on are all whitespace.
pub open spec fn only_ws(s: Seq<u8>, i: int) -> bool {
    forall|j: int| i <= j < s.len() ==> is_ws(#[trigger] s[j])
}

/// The decimal value of the digits `s[from..to]`.
pub open spec fn digits_value(s: Seq<u8>, from: int, to: int) -> int
    decreases to - from,
{
    if from >= to {
        0
    } else {
        digits_value(s, from, to - 1) * 10 + (s[to - 1] - 48)
    }
}

/// The position just after the digit run starting at `from`.
pub open spec fn digit_run_end(s: Seq<u8>, from: int) -> int
    decreases s.len() - from,
{
    if 0 <= from < s.len() && is_digit(s[from]) {
        digit_run_end(s, from + 1)
    } else {
        from
    }
}

/// From position `i`, the line is a chain of words separated by single
/// spaces, each word after a separator non-empty, running to the end.
pub open spec fn words_ok(s: Seq<u8>, i: int) -> bool
    decreases s.len() - i,
    via words_ok_decreases
{
    let j = i + word_len(s, i);
    if j >= s.len() {
        true
    } else {
        s[j] == 32 && word_len(s, j + 1) > 0 && words_ok(s, j + 1)
    }
}

#[via_fn]
proof fn words_ok_decreases(s: Seq<u8>, i: int) {
    lemma_word_len_nonneg(s, i);
}

/// A word never consumes a negative number of bytes.
proof fn lemma_word_len_nonneg(s: Seq<u8>, i: int)
    ensures
        word_len(s, i) >= 0,
    decreases s.len() - i,
{
    if 0 <= i < s.len() && s[i] == 92 && i + 1 < s.len() {
        lemma_word_len_nonneg(s, i + 2);
    } else if 0 <= i < s.len() && !is_ws(s[i]) && s[i] != 92 {
        lemma_word_len_nonneg(s, i + 1);
    }
}

/// The digit run ends within the line, and everything inside it is a
/// digit.
pub(crate) proof fn lemma_digit_run(s: Seq<u8>, from: int)
    requires
        0 <= from <= s.len(),
    ensures
        from <= digit_run_end(s, from) <= s.len(),
        forall|j: int| from <= j < digit_run_end(s, from) ==> is_digit(#[trigger] s[j]),
    decreases s.len() - from,
{
    if from < s.len() && is_digit(s[from]) {
        lemma_digit_run(s, from + 1);
    }
}

/// The line is a user command: `$ ` followed by a word chain whose first
/// word is `ls`, or `cd` with an argument word; later words are ignored.
pub open spec fn is_command_line(s: Seq<u8>) -> bool {
    &&& s.len() >= 2
    &&& s[0] == 36
    &&& s[1] == 32
    &&& words_ok(s, 2)
    &&& {
        let w1 = word_val(s, 2);
        let j = 2 + word_len(s, 2);
        ||| w1 == seq![108u8, 115u8]
        ||| (w1 == seq![99u8, 100u8] && j < s.len())
    }
}

/// The line is a directory listing: `dir ` followed by a name word.
pub open spec fn is_dir_line(s: Seq<u8>) -> bool {
    &&& s.len() >= 4
    &&& s[0] == 100
    &&& s[1] == 105
    &&& s[2] == 114
    &&& s[3] == 32
    &&& only_ws(s, 4 + word_len(s, 4))
}

/// The line is a file listing: digits, one space, then a plain name.
pub open spec fn is_file_line(s: Seq<u8>) -> bool {
    let e = digit_run_end(s, 0);
    &&& s.len() >= 1
    &&& is_digit(s[0])
    &&& digits_value(s, 0, e) <= u64::MAX
    &&& e < s.len()
    &&& s[e] == 32
    &&& {
        let n = name_run_end(s, e + 1);
        only_ws(s, n)
    }
}

/// The position just after the run of name bytes starting at `from`.
pub open spec fn name_run_end(s: Seq<u8>, from: int) -> int
    decreases s.len() - from,
{
    if 0 <= from < s.len() && is_name_byte(s[from]) {
        name_run_end(s, from + 1)
    } else {
        from
    }
}

/// The line parses as exactly one of the three entry forms.
pub open spec fn is_entry_line(s: Seq<u8>) -> bool {
    ||| is_command_line(s)
    ||| is_dir_line(s)
    ||| is_file_line(s)
}

/// Reads the word starting at `from`, returning its unescaped content and
/// the position just after it.
fn read_word(line: &[u8], from: usize) -> (r: (Vec<u8>, usize))
    requires
        from <= line@.len(),
    ensures
        r.0@ == word_val(line@, from as int),
        r.1 == from + word_len(line@, from as int),
        r.1 <= line@.len(),
{
    let mut collected: Vec<u8> = Vec::new();
    let mut i: usize = from;
    loop
        invariant
            from <= i <= line@.len(),
            word_val(line@, from as int) == collected@ + word_val(line@, i as int),
            word_len(line@, from as int) == i - from + word_len(line@, i as int),
        decreases line@.len() - i,
    {
        if i >= line.len() {
            proof {
                assert(word_val(line@, from as int) =~= collected@);
            }
            return (collected, i);
        }
        let b = line[i];
        if b == 92 {
            if i + 1 < line.len() {
                collected.push(line[i + 1]);
                proof {
                    assert(word_val(line@, from as int) =~= collected@ + word_val(
                        line@,
                        i + 2,
                    ));
                }
                i = i + 2;
            } else {
                proof {
                    assert(word_val(line@, i as int) =~= Seq::<u8>::empty());
                    assert(word_val(line@, from as int) =~= collected@);
                }
                return (collected, i + 1);
            }
        } else if b == 32 || b == 9 || b == 10 || b == 13 {
            proof {
                assert(word_val(line@, i as int) =~= Seq::<u8>::empty());
                assert(word_val(line@, from as int) =~= collected@);
            }
            return (collected, i);
        } else {
            collected.push(b);
            proof {
                assert(word_val(line@, from as int) =~= collected@ + word_val(line@, i + 1));
            }
            i = i + 1;
        }
    }
}

/// Parses one line of the session into an entry. The line must match one
/// of the three entry forms.
pub fn entry(line: &[u8]) -> (r: Entry)
    requires
        is_entry_line(line@),
    ensures
        ({
            let s = line@;
            match r {
                Entry::User(Command::Ls) => is_command_line(s) && word_val(s, 2) == seq![
                    108u8,
                    115u8,
                ],
                Entry::User(Command::Cd(name)) => is_command_line(s) && word_val(s, 2) == seq![
                    99u8,
                    100u8,
                ] && name@ == word_val(s, 2 + word_len(s, 2) + 1),
                Entry::Directory(name) => is_dir_line(s) && name@ == word_val(s, 4),
                Entry::File(size, name) => is_file_line(s) && size == digits_value(
                    s,
                    0,
                    digit_run_end(s, 0),
                ) && name@ == s.subrange(
                    digit_run_end(s, 0) + 1,
                    name_run_end(s, digit_run_end(s, 0) + 1),
                ),
            }
        }),
{
    if line.len() >= 2 && line[0] == 36 && line[1] == 32 {
        proof {
            assert(is_command_line(line@)) by {
                if is_dir_line(line@) {
                    assert(line@[0] == 36 && line@[0] == 100);
                }
                if is_file_line(line@) {
                    assert(is_digit(line@[0]) && line@[0] == 36);
                }
            }
        }
        let (w1, j) = read_word(line, 2);
        if w1.len() == 2 && w1[0] == 108 && w1[1] == 115 {
            proof {
                assert(w1@ =~= seq![108u8, 115u8]);
            }
            Entry::User(Command::Ls)
        } else {
            proof {
                assert(word_val(line@, 2) != seq![108u8, 115u8]) by {
                    if word_val(line@, 2) == seq![108u8, 115u8] {
                        assert(w1@.len() == 2 && w1@[0] == 108 && w1@[1] == 115);
                    }
                }
                assert(word_val(line@, 2) == seq![99u8, 100u8]);
            }
            proof {
                assert(words_ok(line@, 2));
                assert(j < line@.len());
                assert(line@[j as int] == 32 && word_len(line@, j + 1) > 0);
            }
            let (name, _end) = read_word(line, j + 1);
            Entry::User(Command::Cd(name))
        }
    } else if line.len() >= 4 && line[0] == 100 && line[1] == 105 && line[2] == 114 && line[3]
        == 32 {
        proof {
            assert(is_dir_line(line@)) by {
                if is_command_line(line@) {
                    assert(line@[0] == 36 && line@[0] == 100);
                }
                if is_file_line(line@) {
                    assert(is_digit(line@[0]) && line@[0] == 100);
                }
            }
        }
        let (name, _end) = read_word(line, 4);
        Entry::Directory(name)
    } else {
        proof {
            assert(is_file_line(line@)) by {
                if is_command_line(line@) {
                    assert(line@[0] == 36 && !is_digit(line@[0]));
                }
                if is_dir_line(line@) {
                    assert(line@[0] == 100 && !is_digit(line@[0]));
                }
            }
        }
        let mut e: usize = 0;
        let mut value: u64 = 0;
        while e < line.len() && line[e] >= 48 && line[e] <= 57
            invariant
                is_file_line(line@),
                0 <= e <= line@.len(),
                digit_run_end(line@, 0) == digit_run_end(line@, e as int),
                value == digits_value(line@, 0, e as int),
                forall|j: int| 0 <= j < e ==> is_digit(#[trigger] line@[j]),
            decreases line@.len() - e,
        {
            proof {
                lemma_digit_run(line@, 0);
                lemma_digit_run(line@, e as int);
                assert(digit_run_end(line@, e as int) == digit_run_end(line@, e + 1));
                assert(e + 1 <= digit_run_end(line@, 0));
                lemma_digits_prefix(line@, 0, e + 1, digit_run_end(line@, 0));
                lemma_digits_prefix(line@, 0, e as int, digit_run_end(line@, 0));
            }
            value = value * 10 + ((line[e] - 48) as u64);
            e += 1;
        }
        proof {
            assert(digit_run_end(line@, e as int) == e as int);
            assert(digit_run_end(line@, 0) == e as int);
            assert(e < line@.len() && line@[e as int] == 32);
        }
        let mut n: usize = e + 1;
        let name_start = e + 1;
        let mut name: Vec<u8> = Vec::new();
        while n < line.len() && ((97 <= line[n] && line[n] <= 122) || (65 <= line[n]
            && line[n] <= 90) || (48 <= line[n] && line[n] <= 57) || line[n] == 46 || line[n]
            == 95)
            invariant
                is_file_line(line@),
                name_start == digit_run_end(line@, 0) + 1,
                name_start <= n <= line@.len(),
                name_run_end(line@, name_start as int) == name_run_end(line@, n as int),
                name@ == line@.subrange(name_start as int, n as int),
                forall|j: int|
                    name_start <= j < n ==> is_name_byte(#[trigger] line@[j]),
            decreases line@.len() - n,
        {
            proof {
                assert(name_run_end(line@, n as int) == name_run_end(line@, n + 1));
            }
            name.push(line[n]);
            proof {
                assert(name@ =~= line@.subrange(name_start as int, n + 1));
            }
            n += 1;
        }
        proof {
            assert(name_run_end(line@, n as int) == n as int);
            assert(name_run_end(line@, name_start as int) == n as int);
        }
        Entry::File(value, name)
    }
}

/// Extending a digit run keeps the same run end, and the accumulated value
/// stays within the full run's value.
pub(crate) proof fn lemma_digits_prefix(s: Seq<u8>, from: int, mid: int, to: int)
    requires
        from <= mid <= to,
        forall|j: int| from <= j < to ==> 0 <= (#[trigger] s[j]) - 48 <= 9,
        digits_value(s, from, to) <= u64::MAX,
    ensures
        digits_value(s, from, mid) <= digits_value(s, from, to),
        0 <= digits_value(s, from, mid),
    decreases to - mid,
{
    if mid < to {
        lemma_digits_prefix(s, from, mid + 1, to);
        assert(digits_value(s, from, mid + 1) == digits_value(s, from, mid) * 10 + (s[mid]
            - 48));
        assert(digits_value(s, from, mid) * 10 >= digits_value(s, from, mid)) by (
        nonlinear_arith)
            requires
                digits_value(s, from, mid) >= 0,
        ;
        assert(digits_value(s, from, mid) >= 0) by {
            lemma_digits_nonneg(s, from, mid);
        }
    } else {
        lemma_digits_nonneg(s, from, mid);
    }
}

pub(crate) proof fn lemma_digits_nonneg(s: Seq<u8>, from: int, to: int)
    requires
        forall|j: int| from <= j < to ==> 0 <= (#[trigger] s[j]) - 48 <= 9,
    ensures
        0 <= digits_value(s, from, to),
    decreases to - from,
{
    if from < to {
        lemma_digits_nonneg(s, from, to - 1);
        assert(digits_value(s, from, to - 1) * 10 >= 0) by (nonlinear_arith)
            requires
                digits_value(s, from, to - 1) >= 0,
        ;
    }
}

} // verus!
