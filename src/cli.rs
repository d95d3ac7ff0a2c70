//! The commands of the interactive shell and how a line of input names them.
use crate::kademlia_id::push_char;
use vstd::prelude::*;

verus! {

/// A shell command.
pub enum Command {
    /// Look up the value stored under a hexadecimal key.
    GET(String),
    /// Store a value in the network.
    PUT(String),
    /// Leave the shell.
    EXIT,
}

/// Whether the shell goes on after a command.
pub enum CMDStatus {
    CONTINUE,
    EXIT,
}

/// Unicode white space (the `White_Space` property), which separates words.
pub open spec fn is_space(c: char) -> bool {
    let v = c as u32;
    (0x09 <= v <= 0x0D) || v == 0x20 || v == 0x85 || v == 0xA0 || v == 0x1680 || (0x2000 <= v
        <= 0x200A) || v == 0x2028 || v == 0x2029 || v == 0x202F || v == 0x205F || v == 0x3000
}

/// The first index at or after `i` that is not white space.
pub open spec fn skip_spaces(s: Seq<char>, i: int) -> int
    decreases s.len() - i,
{
    if 0 <= i < s.len() && is_space(s[i]) {
        skip_spaces(s, i + 1)
    } else {
        i
    }
}

/// The first index at or after `i` that is white space, or the end.
pub open spec fn word_end(s: Seq<char>, i: int) -> int
    decreases s.len() - i,
{
    if 0 <= i < s.len() && !is_space(s[i]) {
        word_end(s, i + 1)
    } else {
        i
    }
}

/// The word that starts after the white space at `i`; empty when none does.
pub open spec fn word_at(s: Seq<char>, i: int) -> Seq<char> {
    let a = skip_spaces(s, i);
    s.subrange(a, word_end(s, a))
}

/// The first word of `s`.
pub open spec fn first_word(s: Seq<char>) -> Seq<char> {
    word_at(s, 0)
}

/// The second word of `s`, empty when there is none.
pub open spec fn second_word(s: Seq<char>) -> Seq<char> {
    word_at(s, word_end(s, skip_spaces(s, 0)))
}

proof fn lemma_scan_bounds(s: Seq<char>, i: int)
    requires
        0 <= i <= s.len(),
    ensures
        i <= skip_spaces(s, i) <= s.len(),
        i <= word_end(s, i) <= s.len(),
    decreases s.len() - i,
{
    if i < s.len() {
        lemma_scan_bounds(s, i + 1);
    }
}

fn is_space_exec(c: char) -> (r: bool)
    ensures
        r == is_space(c),
{
    let v = c as u32;
    (0x09 <= v && v <= 0x0D) || v == 0x20 || v == 0x85 || v == 0xA0 || v == 0x1680 || (0x2000
        <= v && v <= 0x200A) || v == 0x2028 || v == 0x2029 || v == 0x202F || v == 0x205F || v
        == 0x3000
}

/// Reads the word that starts after the white space at `i`, and where it
/// ends.
fn read_word(s: &str, i: usize) -> (r: (String, usize))
    requires
        i <= s@.len(),
    ensures
        r.0@ == word_at(s@, i as int),
        r.1 == word_end(s@, skip_spaces(s@, i as int)),
{
    let n = s.unicode_len();
    let mut a = i;
    while a < n && is_space_exec(s.get_char(a))
        invariant
            i <= a <= n,
            n == s@.len(),
            skip_spaces(s@, i as int) == skip_spaces(s@, a as int),
        decreases n - a,
    {
        a += 1;
    }
    assert(skip_spaces(s@, a as int) == a);
    let mut word = String::new();
    let mut b = a;
    while b < n
        invariant
            a <= b <= n,
            n == s@.len(),
            skip_spaces(s@, i as int) == a,
            word_end(s@, a as int) == word_end(s@, b as int),
            word@ == s@.subrange(a as int, b as int),
        ensures
            word_end(s@, a as int) == b,
            word@ == s@.subrange(a as int, b as int),
        decreases n - b,
    {
        let c = s.get_char(b);
        if is_space_exec(c) {
            break;
        }
        push_char(&mut word, c);
        assert(word@ =~= s@.subrange(a as int, b as int + 1));
        b += 1;
    }
    (word, b)
}

fn same_text(w: &String, lit: &str) -> (r: bool)
    ensures
        r == (w@ == lit@),
{
    let s = w.as_str();
    let n = s.unicode_len();
    if n != lit.unicode_len() {
        return false;
    }
    let mut i: usize = 0;
    while i < n
        invariant
            i <= n,
            n == w@.len(),
            n == lit@.len(),
            s@ == w@,
            forall|k: int| 0 <= k < i ==> w@[k] == lit@[k],
        decreases n - i,
    {
        if s.get_char(i) != lit.get_char(i) {
            return false;
        }
        i += 1;
    }
    assert(w@ =~= lit@);
    true
}

/// Reads a shell command: `get <hash>`, `put <data>` or `exit`, words
/// separated by white space.
pub fn parse_command(input: &str) -> (r: Result<Command, &'static str>)
    ensures
        first_word(input@) == "get"@ ==> if second_word(input@).len() > 0 {
            r matches Ok(Command::GET(h)) && h@ == second_word(input@)
        } else {
            r == Err::<Command, &'static str>("GET: missing hash argument")
        },
        first_word(input@) == "put"@ ==> if second_word(input@).len() > 0 {
            r matches Ok(Command::PUT(d)) && d@ == second_word(input@)
        } else {
            r == Err::<Command, &'static str>("PUT: missing data argument")
        },
        first_word(input@) == "exit"@ ==> r matches Ok(Command::EXIT),
        first_word(input@) != "get"@ && first_word(input@) != "put"@ && first_word(input@)
            != "exit"@ ==> r == Err::<Command, &'static str>("Unknown command"),
{
    proof {
        lemma_scan_bounds(input@, 0);
        lemma_scan_bounds(input@, skip_spaces(input@, 0));
        reveal_strlit("get");
        reveal_strlit("put");
        reveal_strlit("exit");
        assert("put"@ != "get"@) by {
            assert("put"@[0] != "get"@[0]);
        }
        assert("exit"@.len() != "get"@.len() && "exit"@.len() != "put"@.len());
    }
    let (command, end) = read_word(input, 0);
    proof {
        lemma_scan_bounds(input@, end as int);
    }
    if same_text(&command, "get") {
        let (arg, _) = read_word(input, end);
        if arg.as_str().unicode_len() > 0 {
            Ok(Command::GET(arg))
        } else {
            Err("GET: missing hash argument")
        }
    } else if same_text(&command, "put") {
        let (arg, _) = read_word(input, end);
        if arg.as_str().unicode_len() > 0 {
            Ok(Command::PUT(arg))
        } else {
            Err("PUT: missing data argument")
        }
    } else if same_text(&command, "exit") {
        Ok(Command::EXIT)
    } else {
        Err("Unknown command")
    }
}

} // verus!
