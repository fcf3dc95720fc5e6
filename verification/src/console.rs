use vstd::prelude::*;
use crate::text::{decimal, digit_char, lowercase, text_eq, to_lower};

verus! {

/// Where to move in a replay.
#[derive(Debug, Clone, PartialEq, Eq, Structural)]
pub enum NavArg {
    PrevRound,
    Prev,
    Next,
    NextRound,
    Turn(usize),
}

/// A command typed at the bot's console.
#[derive(Debug, Clone)]
pub enum DebugCommand {
    /// Show a player's hand, as someone sees it.
    Hand(String, Option<String>),
    /// Move in the replay.
    Navigate(NavArg),
}

/// A white-space character in the sense of Unicode's White_Space property,
/// as `char::is_whitespace` documents it.
pub open spec fn is_space(c: char) -> bool {
    let u = c as u32;
    ||| 9 <= u <= 13
    ||| u == 32
    ||| u == 0x85
    ||| u == 0xA0
    ||| u == 0x1680
    ||| 0x2000 <= u <= 0x200A
    ||| u == 0x2028
    ||| u == 0x2029
    ||| u == 0x202F
    ||| u == 0x205F
    ||| u == 0x3000
}

/// Whether the character is white space.
pub fn is_space_char(c: char) -> (r: bool)
    ensures
        r == is_space(c),
{
    let u = c as u32;
    (9 <= u && u <= 13) || u == 32 || u == 0x85 || u == 0xA0 || u == 0x1680 || (0x2000 <= u && u <= 0x200A)
        || u == 0x2028 || u == 0x2029 || u == 0x202F || u == 0x205F || u == 0x3000
}

/// The words read so far and the start of the word being read, where one is.
pub open spec fn split_state(s: Seq<char>) -> (Seq<Seq<char>>, Seq<char>)
    decreases s.len(),
{
    if s.len() == 0 {
        (Seq::empty(), Seq::empty())
    } else {
        let (done, cur) = split_state(s.drop_last());
        if is_space(s.last()) {
            if cur.len() > 0 { (done.push(cur), Seq::empty()) } else { (done, Seq::empty()) }
        } else {
            (done, cur.push(s.last()))
        }
    }
}

/// The words of the text: its longest runs of characters that are not white space.
pub open spec fn words(s: Seq<char>) -> Seq<Seq<char>> {
    let (done, cur) = split_state(s);
    if cur.len() > 0 { done.push(cur) } else { done }
}

/// The words of the text.
pub fn split_words(s: &str) -> (r: Vec<String>)
    ensures
        r@.map_values(|w: String| w@) == words(s@),
{
    let n = s.unicode_len();
    let mut done: Vec<String> = Vec::new();
    let mut start: usize = 0;
    let mut i: usize = 0;
    while i < n
        invariant
            n == s@.len(),
            start <= i <= n,
            done@.map_values(|w: String| w@) == split_state(s@.take(i as int)).0,
            s@.subrange(start as int, i as int) == split_state(s@.take(i as int)).1,
        decreases n - i,
    {
        let c = s.get_char(i);
        proof {
            assert(s@.take(i + 1).drop_last() =~= s@.take(i as int));
            assert(s@.take(i + 1).last() == c);
        }
        if is_space_char(c) {
            if start < i {
                let ghost prev = done@;
                done.push(String::from_str(s.substring_char(start, i)));
                proof {
                    assert(done@.map_values(|w: String| w@) =~= prev.map_values(|w: String| w@).push(
                        s@.subrange(start as int, i as int)));
                }
            }
            start = i + 1;
            proof {
                assert(s@.subrange(start as int, i + 1) =~= Seq::<char>::empty());
            }
        } else {
            proof {
                assert(s@.subrange(start as int, i + 1) =~= s@.subrange(start as int, i as int).push(c));
            }
        }
        i += 1;
    }
    proof {
        assert(s@.take(n as int) =~= s@);
    }
    if start < n {
        let ghost prev = done@;
        done.push(String::from_str(s.substring_char(start, n)));
        proof {
            assert(done@.map_values(|w: String| w@) =~= prev.map_values(|w: String| w@).push(
                s@.subrange(start as int, n as int)));
        }
    }
    done
}

/// The value of decimal digits.
pub open spec fn digits_value(d: Seq<char>) -> nat
    decreases d.len(),
{
    if d.len() == 0 {
        0
    } else {
        digits_value(d.drop_last()) * 10 + (d.last() as nat - 48) as nat
    }
}

/// A decimal digit.
pub open spec fn is_digit(c: char) -> bool {
    '0' <= c <= '9'
}

/// The text without its leading plus sign, where it has one.
pub open spec fn without_plus(s: Seq<char>) -> Seq<char> {
    if s.len() > 0 && s[0] == '+' { s.drop_first() } else { s }
}

/// The number that `str::parse::<usize>` reads from the text: an optional plus sign and
/// at least one decimal digit, of a value that fits in `usize`.
pub open spec fn usize_text(s: Seq<char>) -> Option<usize> {
    let d = without_plus(s);
    if d.len() > 0 && (forall|i: int| 0 <= i < d.len() ==> is_digit(#[trigger] d[i])) && digits_value(d) <= usize::MAX {
        Some(digits_value(d) as usize)
    } else {
        None
    }
}

proof fn lemma_digits_value_mono(d: Seq<char>, n: int)
    requires
        0 <= n <= d.len(),
        forall|i: int| 0 <= i < d.len() ==> is_digit(#[trigger] d[i]),
    ensures
        digits_value(d.take(n)) <= digits_value(d),
    decreases d.len() - n,
{
    if n < d.len() {
        lemma_digits_value_mono(d, n + 1);
        assert(d.take(n + 1).drop_last() =~= d.take(n));
    } else {
        assert(d.take(n) =~= d);
    }
}

/// Decimal digits read back as the number they were written for.
proof fn lemma_decimal_digits(n: nat)
    ensures
        decimal(n).len() > 0,
        forall|i: int| 0 <= i < decimal(n).len() ==> is_digit(#[trigger] decimal(n)[i]),
        digits_value(decimal(n)) == n,
    decreases n,
{
    if n < 10 {
        assert(digit_char(n) as nat == 48 + n);
        assert(decimal(n).drop_last() =~= Seq::<char>::empty());
        assert(digits_value(decimal(n)) == digits_value(decimal(n).drop_last()) * 10 + (decimal(n).last() as nat - 48) as nat);
    } else {
        lemma_decimal_digits(n / 10);
        let d = decimal(n);
        assert(d.drop_last() =~= decimal(n / 10));
        assert(digit_char(n % 10) as nat == 48 + n % 10);
        assert(forall|i: int| 0 <= i < d.len() - 1 ==> d[i] == decimal(n / 10)[i]);
        assert(d.last() == digit_char(n % 10));
        assert(digits_value(d) == digits_value(d.drop_last()) * 10 + (d.last() as nat - 48) as nat);
        assert(digits_value(d.drop_last()) == n / 10);
        assert(n == (n / 10) * 10 + n % 10);
    }
}

/// A number written in decimal, as `ToString` writes it, reads back as that number.
pub proof fn lemma_decimal_round_trip(n: usize)
    ensures
        usize_text(decimal(n as nat)) == Some(n),
{
    lemma_decimal_digits(n as nat);
    let d = decimal(n as nat);
    assert(d[0] != '+') by {
        assert(is_digit(d[0]));
    }
    assert(without_plus(d) == d);
}

/// Reads a number as `str::parse::<usize>` does.
pub fn parse_usize(s: &str) -> (r: Option<usize>)
    ensures
        r == usize_text(s@),
{
    let n = s.unicode_len();
    let mut i: usize = 0;
    if n > 0 && s.get_char(0) == '+' {
        i = 1;
    }
    let ghost d = without_plus(s@);
    proof {
        assert(d =~= s@.subrange(i as int, n as int));
    }
    if i == n {
        return None;
    }
    let first = i;
    let mut v: usize = 0;
    while i < n
        invariant
            n == s@.len(),
            first < n,
            first <= i <= n,
            d == s@.subrange(first as int, n as int),
            d == without_plus(s@),
            forall|j: int| 0 <= j < i - first ==> is_digit(#[trigger] d[j]),
            v == digits_value(d.take(i - first)),
        decreases n - i,
    {
        let c = s.get_char(i);
        proof {
            assert(d[i - first] == c);
            assert(d.take(i - first + 1).drop_last() =~= d.take(i - first));
        }
        if c < '0' || c > '9' {
            proof {
                assert(!is_digit(d[i - first]));
                assert(!(forall|k: int| 0 <= k < d.len() ==> is_digit(#[trigger] d[k])));
                assert(usize_text(s@) is None);
            }
            return None;
        }
        let digit = (c as u32 - 48) as usize;
        let next = match v.checked_mul(10) {
            Some(t) => t.checked_add(digit),
            None => None,
        };
        match next {
            Some(t) => {
                v = t;
            },
            None => {
                proof {
                    assert(v * 10 + digit > usize::MAX);
                    assert(digits_value(d.take(i - first + 1)) == v * 10 + digit);
                    if forall|k: int| 0 <= k < d.len() ==> is_digit(#[trigger] d[k]) {
                        lemma_digits_value_mono(d, i - first + 1);
                    }
                }
                return None;
            },
        }
        i += 1;
    }
    proof {
        assert(d.take(n - first) =~= d);
    }
    Some(v)
}

/// The place in the replay that the word names, where it names one.
pub open spec fn nav_arg_of(w: Seq<char>) -> Option<NavArg> {
    if w == "++"@ {
        Some(NavArg::NextRound)
    } else if w == "+"@ {
        Some(NavArg::Next)
    } else if w == "--"@ {
        Some(NavArg::PrevRound)
    } else if w == "-"@ {
        Some(NavArg::Prev)
    } else {
        match usize_text(w) {
            Some(t) => Some(NavArg::Turn(t)),
            None => None,
        }
    }
}

/// The command names a hand.
pub open spec fn is_hand_word(w: Seq<char>) -> bool {
    lowercase(w) == "hand"@ || lowercase(w) == "h"@
}

/// The command names a move in the replay.
pub open spec fn is_nav_word(w: Seq<char>) -> bool {
    lowercase(w) == "navigate"@ || lowercase(w) == "nav"@
}

/// The line can be read: a move in the replay names a place in it.
pub open spec fn parse_defined(input: Seq<char>) -> bool {
    let ws = words(input);
    ws.len() >= 2 && !is_hand_word(ws[0]) && is_nav_word(ws[0]) ==> nav_arg_of(ws[1]) is Some
}

/// What the line asks for, given that it can be read.
pub open spec fn parse_result(input: Seq<char>, r: Option<DebugCommand>) -> bool {
    let ws = words(input);
    if ws.len() < 2 {
        r is None
    } else if is_hand_word(ws[0]) {
        &&& r matches Some(DebugCommand::Hand(who, seen_by))
        &&& who@ == ws[1]
        &&& match seen_by {
            Some(s) => ws.len() > 2 && s@ == ws[2],
            None => ws.len() <= 2,
        }
    } else if is_nav_word(ws[0]) {
        r == Some(DebugCommand::Navigate(nav_arg_of(ws[1]).unwrap()))
    } else {
        r is None
    }
}

impl DebugCommand {
    /// Reads a console line: its first word, in any case, names the command, and the
    /// words after it are its arguments.
    pub fn parse(input: &str) -> (r: Option<Self>)
        requires
            parse_defined(input@),
        ensures
            parse_result(input@, r),
    {
        let parts = split_words(input);
        proof {
            assert(parts@.len() == words(input@).len());
        }
        if parts.len() < 2 {
            return None;
        }
        proof {
            assert(parts@[0]@ == words(input@)[0]);
            assert(parts@[1]@ == words(input@)[1]);
            if parts@.len() > 2 {
                assert(parts@[2]@ == words(input@)[2]);
            }
            reveal_strlit("hand");
            reveal_strlit("h");
            reveal_strlit("navigate");
            reveal_strlit("nav");
        }
        let head = to_lower(parts[0].as_str());
        if text_eq(head.as_str(), "hand") || text_eq(head.as_str(), "h") {
            let seen_by = if parts.len() > 2 {
                Some(parts[2].clone())
            } else {
                None
            };
            Some(DebugCommand::Hand(parts[1].clone(), seen_by))
        } else if text_eq(head.as_str(), "navigate") || text_eq(head.as_str(), "nav") {
            let arg = nav_arg(parts[1].as_str());
            Some(DebugCommand::Navigate(arg.unwrap()))
        } else {
            None
        }
    }

    /// Whether the line can be read (see `parse_defined`).
    pub fn can_parse(input: &str) -> (r: bool)
        ensures
            r == parse_defined(input@),
    {
        let parts = split_words(input);
        proof {
            assert(parts@.len() == words(input@).len());
        }
        if parts.len() < 2 {
            return true;
        }
        proof {
            assert(parts@[0]@ == words(input@)[0]);
            assert(parts@[1]@ == words(input@)[1]);
            reveal_strlit("hand");
            reveal_strlit("h");
            reveal_strlit("navigate");
            reveal_strlit("nav");
        }
        let head = to_lower(parts[0].as_str());
        let hand = text_eq(head.as_str(), "hand") || text_eq(head.as_str(), "h");
        let nav = text_eq(head.as_str(), "navigate") || text_eq(head.as_str(), "nav");
        hand || !nav || nav_arg(parts[1].as_str()).is_some()
    }

    /// Reads a console line where it can be read (see `parse`); `None` where a move in
    /// the replay names no place in it.
    pub fn parse_checked(input: &str) -> (r: Option<Option<Self>>)
        ensures
            match r {
                Some(c) => parse_defined(input@) && parse_result(input@, c),
                None => !parse_defined(input@),
            },
    {
        if DebugCommand::can_parse(input) {
            Some(DebugCommand::parse(input))
        } else {
            None
        }
    }
}

/// The place in the replay that the word names, where it names one.
pub fn nav_arg(w: &str) -> (r: Option<NavArg>)
    ensures
        r == nav_arg_of(w@),
{
    proof {
        reveal_strlit("++");
        reveal_strlit("+");
        reveal_strlit("--");
        reveal_strlit("-");
    }
    if text_eq(w, "++") {
        Some(NavArg::NextRound)
    } else if text_eq(w, "+") {
        Some(NavArg::Next)
    } else if text_eq(w, "--") {
        Some(NavArg::PrevRound)
    } else if text_eq(w, "-") {
        Some(NavArg::Prev)
    } else {
        match parse_usize(w) {
            Some(t) => Some(NavArg::Turn(t)),
            None => None,
        }
    }
}

} // verus!
