use vstd::prelude::*;

use crate::memory::allocator::{AllocationStrategy, Block, MemoryStats};

verus! {

broadcast use vstd::string::axiom_spec_iter;

// ---------------------------------------------------------------------------
// The command language
// ---------------------------------------------------------------------------

/// White space as `char::is_whitespace` (and so `str::split_whitespace`) takes it: the
/// Unicode `White_Space` characters.
pub open spec fn is_space(c: char) -> bool {
    let u = c as u32;
    ||| 0x9 <= u <= 0xD
    ||| u == 0x20
    ||| u == 0x85
    ||| u == 0xA0
    ||| u == 0x1680
    ||| 0x2000 <= u <= 0x200A
    ||| u == 0x2028
    ||| u == 0x2029
    ||| u == 0x202F
    ||| u == 0x205F
    ||| u == 0x3000
}

/// The words of `s`: its maximal runs of non-space characters, in order.
pub open spec fn words(s: Seq<char>) -> Seq<Seq<char>>
    decreases s.len(),
{
    if s.len() == 0 {
        Seq::empty()
    } else {
        let w = words(s.drop_last());
        let c = s.last();
        if is_space(c) {
            w
        } else if s.len() >= 2 && !is_space(s[s.len() - 2]) {
            w.update(w.len() - 1, w.last().push(c))
        } else {
            w.push(seq![c])
        }
    }
}

/// The value of a digit character: `0`-`9`, then `a`-`f` or `A`-`F` for 10-15; 16 for
/// any other character.
pub open spec fn digit_value(c: char) -> int {
    let u = c as u32;
    if 48 <= u <= 57 {
        u - 48
    } else if 97 <= u <= 102 {
        u - 87
    } else if 65 <= u <= 70 {
        u - 55
    } else {
        16
    }
}

/// The number a string of digits spells in base `radix`.
pub open spec fn digits_value(d: Seq<char>, radix: int) -> int
    decreases d.len(),
{
    if d.len() == 0 {
        0
    } else {
        digits_value(d.drop_last(), radix) * radix + digit_value(d.last())
    }
}

/// The number `d` spells in base `radix`, if it is one or more digits of that base and
/// no larger than `max`.
pub open spec fn parse_digits(d: Seq<char>, radix: int, max: int) -> Option<int> {
    if d.len() > 0 && (forall|i: int| 0 <= i < d.len() ==> #[trigger] digit_value(d[i]) < radix)
        && digits_value(d, radix) <= max {
        Some(digits_value(d, radix))
    } else {
        None
    }
}

/// `w` without its leading `+`, if it has one.
pub open spec fn unsigned_digits(w: Seq<char>) -> Seq<char> {
    if w.len() > 0 && w[0] == '+' {
        w.drop_first()
    } else {
        w
    }
}

/// The number `w` spells as an unsigned integer no larger than `max`, as `str::parse`
/// reads one: an optional `+`, then one or more decimal digits.
pub open spec fn parse_unsigned(w: Seq<char>, max: int) -> Option<int> {
    parse_digits(unsigned_digits(w), 10, max)
}

/// `w` starts with `0x` or `0X`.
pub open spec fn is_hex_literal(w: Seq<char>) -> bool {
    w.len() >= 2 && w[0] == '0' && (w[1] == 'x' || w[1] == 'X')
}

/// The address `w` spells, no larger than `max`: hexadecimal after `0x` or `0X`, else
/// decimal as `parse_unsigned` reads it.
pub open spec fn parse_address(w: Seq<char>, max: int) -> Option<int> {
    if is_hex_literal(w) {
        parse_digits(w.skip(2), 16, max)
    } else {
        parse_unsigned(w, max)
    }
}

/// Which command's usage line to show.
#[derive(Clone, Copy, Debug, PartialEq, Eq, Structural)]
pub enum UsageOf {
    Init,
    SetAllocator,
    Malloc,
    Free,
    VmAccess,
    CacheInit,
    CacheAccess,
}

/// A command line, read: the command and its argument, `None` where the argument does
/// not parse.
#[derive(Clone, Copy, Debug, PartialEq, Eq, Structural)]
pub enum Command {
    Empty,
    Init(Option<usize>),
    SetAllocator(Option<AllocationStrategy>),
    Malloc(Option<usize>),
    Free(Option<u32>),
    Usage(UsageOf),
    Dump,
    Stats,
    VmInit,
    VmAccess(Option<u32>),
    VmStats,
    CacheInit(Option<usize>, Option<usize>),
    CacheAccess(Option<u64>),
    CacheStats,
    Unknown,
}

/// The strategy a word names: `first`, `best` or `worst`, with or without `_fit`.
pub open spec fn strategy_named(w: Seq<char>) -> Option<AllocationStrategy> {
    if w == "first"@ || w == "first_fit"@ {
        Some(AllocationStrategy::FirstFit)
    } else if w == "best"@ || w == "best_fit"@ {
        Some(AllocationStrategy::BestFit)
    } else if w == "worst"@ || w == "worst_fit"@ {
        Some(AllocationStrategy::WorstFit)
    } else {
        None
    }
}

/// A number argument, as `Option` of its type.
pub open spec fn size_arg(w: Seq<char>) -> Option<usize> {
    match parse_unsigned(w, usize::MAX as int) {
        Some(n) => Some(n as usize),
        None => None,
    }
}

/// The command a line spells: its first word names it; a command that takes arguments
/// wants exactly that many more words, and the others ignore what follows.
pub open spec fn parse_command(s: Seq<char>) -> Command {
    let w = words(s);
    if w.len() == 0 {
        Command::Empty
    } else if w[0] == "init"@ {
        if w.len() != 2 {
            Command::Usage(UsageOf::Init)
        } else {
            Command::Init(size_arg(w[1]))
        }
    } else if w[0] == "set_allocator"@ {
        if w.len() != 2 {
            Command::Usage(UsageOf::SetAllocator)
        } else {
            Command::SetAllocator(strategy_named(w[1]))
        }
    } else if w[0] == "malloc"@ {
        if w.len() != 2 {
            Command::Usage(UsageOf::Malloc)
        } else {
            Command::Malloc(size_arg(w[1]))
        }
    } else if w[0] == "free"@ {
        if w.len() != 2 {
            Command::Usage(UsageOf::Free)
        } else {
            Command::Free(
                match parse_unsigned(w[1], u32::MAX as int) {
                    Some(n) => Some(n as u32),
                    None => None,
                },
            )
        }
    } else if w[0] == "dump"@ {
        Command::Dump
    } else if w[0] == "stats"@ {
        Command::Stats
    } else if w[0] == "vm_init"@ {
        Command::VmInit
    } else if w[0] == "vm_access"@ {
        if w.len() != 2 {
            Command::Usage(UsageOf::VmAccess)
        } else {
            Command::VmAccess(
                match parse_address(w[1], u32::MAX as int) {
                    Some(n) => Some(n as u32),
                    None => None,
                },
            )
        }
    } else if w[0] == "vm_stats"@ {
        Command::VmStats
    } else if w[0] == "cache_init"@ {
        if w.len() != 3 {
            Command::Usage(UsageOf::CacheInit)
        } else {
            Command::CacheInit(size_arg(w[1]), size_arg(w[2]))
        }
    } else if w[0] == "cache_access"@ {
        if w.len() != 2 {
            Command::Usage(UsageOf::CacheAccess)
        } else {
            Command::CacheAccess(
                match parse_address(w[1], u64::MAX as int) {
                    Some(n) => Some(n as u64),
                    None => None,
                },
            )
        }
    } else if w[0] == "cache_stats"@ {
        Command::CacheStats
    } else {
        Command::Unknown
    }
}

/// What the shell answers.
pub enum Reply {
    /// Nothing to print.
    Silent,
    Usage(UsageOf),
    Initialized(usize),
    NotInitialized,
    StrategyUpdated,
    InvalidStrategy,
    Allocated(u32, usize),
    AllocationFailed,
    Freed(u32),
    InvalidBlockId,
    Layout(Vec<Block>),
    Stats(MemoryStats),
    VmInitialized,
    VmNotInitialized,
    /// The physical address, whether the access faulted, and whether the cache hit when
    /// there is one.
    Translated(usize, bool, Option<bool>),
    /// Page faults and replacements.
    VmStats(usize, usize),
    CacheInitialized(usize, usize),
    InvalidCacheSize,
    CacheNotInitialized,
    CacheAccessed(bool),
    CacheStats(CacheCounts),
    UnknownCommand,
}

/// Access and hit counts of both cache levels.
pub struct CacheCounts {
    pub l1_accesses: usize,
    pub l1_hits: usize,
    pub l2_accesses: usize,
    pub l2_hits: usize,
}

// ---------------------------------------------------------------------------
// Reading a line
// ---------------------------------------------------------------------------

fn chars_of(s: &str) -> (v: Vec<char>)
    ensures
        v@ == s@,
{
    let mut v: Vec<char> = Vec::new();
    for c in it: s.chars()
        invariant
            v@ == it.seq().take(it.index() as int),
    {
        v.push(c);
    }
    v
}

fn space(c: char) -> (b: bool)
    ensures
        b == is_space(c),
{
    let u = c as u32;
    (0x9 <= u && u <= 0xD) || u == 0x20 || u == 0x85 || u == 0xA0 || u == 0x1680 || (0x2000
        <= u && u <= 0x200A) || u == 0x2028 || u == 0x2029 || u == 0x202F || u == 0x205F || u
        == 0x3000
}

/// The number of words of `s`, and its first three words (empty where missing).
fn first_words(s: &Vec<char>) -> (r: (usize, Vec<char>, Vec<char>, Vec<char>))
    ensures
        r.0 == words(s@).len(),
        r.0 >= 1 ==> r.1@ == words(s@)[0],
        r.0 >= 2 ==> r.2@ == words(s@)[1],
        r.0 >= 3 ==> r.3@ == words(s@)[2],
{
    let n = s.len();
    let mut count: usize = 0;
    let mut w0: Vec<char> = Vec::new();
    let mut w1: Vec<char> = Vec::new();
    let mut w2: Vec<char> = Vec::new();
    let mut in_word = false;
    let mut i: usize = 0;
    assert(s@.take(0) =~= Seq::<char>::empty());
    while i < n
        invariant
            n == s@.len(),
            i <= n,
            count <= i,
            count == words(s@.take(i as int)).len(),
            in_word == (i > 0 && !is_space(s@[i - 1])),
            in_word ==> count >= 1,
            count >= 1 ==> w0@ == words(s@.take(i as int))[0],
            count >= 2 ==> w1@ == words(s@.take(i as int))[1],
            count >= 3 ==> w2@ == words(s@.take(i as int))[2],
            count < 1 ==> w0@ == Seq::<char>::empty(),
            count < 2 ==> w1@ == Seq::<char>::empty(),
            count < 3 ==> w2@ == Seq::<char>::empty(),
        decreases n - i,
    {
        let c = s[i];
        let ghost p = s@.take(i as int);
        let ghost q = s@.take(i + 1);
        assert(q.drop_last() =~= p);
        assert(q.last() == c);
        if i > 0 {
            assert(q[q.len() - 2] == s@[i - 1]);
        }
        if space(c) {
            in_word = false;
        } else if in_word {
            if count == 1 {
                w0.push(c);
            } else if count == 2 {
                w1.push(c);
            } else if count == 3 {
                w2.push(c);
            }
            assert(words(q) == words(p).update(count - 1, words(p)[count - 1].push(c)));
        } else {
            if count == 0 {
                w0.push(c);
            } else if count == 1 {
                w1.push(c);
            } else if count == 2 {
                w2.push(c);
            }
            count += 1;
            in_word = true;
            assert(words(q) == words(p).push(seq![c]));
        }
        i += 1;
        assert(w0@ =~= if count >= 1 {
            words(q)[0]
        } else {
            Seq::<char>::empty()
        });
        assert(w1@ =~= if count >= 2 {
            words(q)[1]
        } else {
            Seq::<char>::empty()
        });
        assert(w2@ =~= if count >= 3 {
            words(q)[2]
        } else {
            Seq::<char>::empty()
        });
    }
    assert(s@.take(n as int) =~= s@);
    (count, w0, w1, w2)
}

/// The word is exactly `k`.
fn word_is(w: &Vec<char>, k: &str) -> (b: bool)
    ensures
        b == (w@ == k@),
{
    let kc = chars_of(k);
    if w.len() != kc.len() {
        return false;
    }
    let n = w.len();
    let mut i: usize = 0;
    while i < n
        invariant
            n == w@.len(),
            n == kc@.len(),
            kc@ == k@,
            i <= n,
            forall|j: int| 0 <= j < i ==> w@[j] == kc@[j],
        decreases n - i,
    {
        if w[i] != kc[i] {
            assert(w@[i as int] != kc@[i as int]);
            return false;
        }
        i += 1;
    }
    assert(w@ =~= kc@);
    true
}

proof fn lemma_digits_nonnegative(d: Seq<char>, radix: int)
    requires
        radix > 0,
    ensures
        digits_value(d, radix) >= 0,
    decreases d.len(),
{
    if d.len() > 0 {
        lemma_digits_nonnegative(d.drop_last(), radix);
        assert(digits_value(d.drop_last(), radix) * radix >= 0) by (nonlinear_arith)
            requires
                digits_value(d.drop_last(), radix) >= 0,
                radix > 0,
        ;
    }
}

proof fn lemma_digits_prefix(d: Seq<char>, radix: int, k: int)
    requires
        0 <= k <= d.len(),
        radix > 0,
    ensures
        digits_value(d.take(k), radix) <= digits_value(d, radix),
    decreases d.len() - k,
{
    if k == d.len() {
        assert(d.take(k) =~= d);
    } else {
        lemma_digits_prefix(d, radix, k + 1);
        let t = d.take(k + 1);
        assert(t.drop_last() =~= d.take(k));
        lemma_digits_nonnegative(d.take(k), radix);
        let v = digits_value(d.take(k), radix);
        assert(v <= v * radix) by (nonlinear_arith)
            requires
                v >= 0,
                radix > 0,
        ;
    }
}

/// The value of a digit character, 16 for a character that is no digit.
fn digit(c: char) -> (v: u64)
    ensures
        v == digit_value(c),
{
    let u = c as u32;
    if 48 <= u && u <= 57 {
        (u - 48) as u64
    } else if 97 <= u && u <= 102 {
        (u - 87) as u64
    } else if 65 <= u && u <= 70 {
        (u - 55) as u64
    } else {
        16
    }
}

/// Read `w` from position `start` on as a number in base `radix` no larger than `max`.
fn parse_digits_from(w: &Vec<char>, start: usize, radix: u64, max: u64) -> (r: Option<u64>)
    requires
        start <= w@.len(),
        2 <= radix <= 16,
    ensures
        r is Some <==> parse_digits(w@.skip(start as int), radix as int, max as int) is Some,
        r matches Some(v) ==> v == parse_digits(w@.skip(start as int), radix as int, max as int)->0,
{
    let n = w.len();
    let ghost d = w@.skip(start as int);
    if start == n {
        return None;
    }
    let mut v: u64 = 0;
    let mut i: usize = start;
    assert(d.take(0) =~= Seq::<char>::empty());
    while i < n
        invariant
            n == w@.len(),
            start <= i <= n,
            2 <= radix <= 16,
            d == w@.skip(start as int),
            v == digits_value(d.take(i - start), radix as int),
            v <= max,
            forall|j: int| 0 <= j < i - start ==> #[trigger] digit_value(d[j]) < radix,
        decreases n - i,
    {
        let c = w[i];
        let ghost k = i - start;
        assert(d[k] == c);
        assert(d.take(k + 1).drop_last() =~= d.take(k));
        assert(d.take(k + 1).last() == c);
        let dg = digit(c);
        if dg >= radix {
            return None;
        }
        if dg > max || v > (max - dg) / radix {
            proof {
                if dg <= max {
                    assert(v * radix + dg > max) by (nonlinear_arith)
                        requires
                            v > ((max - dg) as u64) / radix,
                            dg <= max,
                            radix > 0,
                    ;
                }
                lemma_digits_prefix(d, radix as int, k + 1);
            }
            return None;
        }
        proof {
            assert(v * radix + dg <= max) by (nonlinear_arith)
                requires
                    v <= ((max - dg) as u64) / radix,
                    dg <= max,
                    radix > 0,
            ;
        }
        v = v * radix + dg;
        i += 1;
    }
    assert(d.take(n - start) =~= d);
    Some(v)
}

/// Read `w` as an unsigned decimal number no larger than `max`.
fn parse_number(w: &Vec<char>, max: u64) -> (r: Option<u64>)
    ensures
        r is Some <==> parse_unsigned(w@, max as int) is Some,
        r matches Some(v) ==> v == parse_unsigned(w@, max as int)->0,
{
    let mut start: usize = 0;
    if w.len() > 0 && w[0] == '+' {
        start = 1;
    }
    assert(unsigned_digits(w@) =~= w@.skip(start as int));
    parse_digits_from(w, start, 10, max)
}

/// Read `w` as an address no larger than `max`: hexadecimal after `0x`, else decimal.
fn parse_addr(w: &Vec<char>, max: u64) -> (r: Option<u64>)
    ensures
        r is Some <==> parse_address(w@, max as int) is Some,
        r matches Some(v) ==> v == parse_address(w@, max as int)->0,
{
    if w.len() >= 2 && w[0] == '0' && (w[1] == 'x' || w[1] == 'X') {
        parse_digits_from(w, 2, 16, max)
    } else {
        parse_number(w, max)
    }
}

/// Read a number argument.
fn size_of_word(w: &Vec<char>) -> (r: Option<usize>)
    ensures
        r == size_arg(w@),
{
    match parse_number(w, usize::MAX as u64) {
        Some(n) => Some(n as usize),
        None => None,
    }
}

/// Read a command line.
pub fn parse(line: &str) -> (c: Command)
    ensures
        c == parse_command(line@),
{
    let chars = chars_of(line);
    let (count, w0, w1, w2) = first_words(&chars);
    if count == 0 {
        return Command::Empty;
    }
    if word_is(&w0, "init") {
        if count != 2 {
            return Command::Usage(UsageOf::Init);
        }
        return Command::Init(size_of_word(&w1));
    }
    if word_is(&w0, "set_allocator") {
        if count != 2 {
            return Command::Usage(UsageOf::SetAllocator);
        }
        return Command::SetAllocator(
            if word_is(&w1, "first") || word_is(&w1, "first_fit") {
                Some(AllocationStrategy::FirstFit)
            } else if word_is(&w1, "best") || word_is(&w1, "best_fit") {
                Some(AllocationStrategy::BestFit)
            } else if word_is(&w1, "worst") || word_is(&w1, "worst_fit") {
                Some(AllocationStrategy::WorstFit)
            } else {
                None
            },
        );
    }
    if word_is(&w0, "malloc") {
        if count != 2 {
            return Command::Usage(UsageOf::Malloc);
        }
        return Command::Malloc(size_of_word(&w1));
    }
    if word_is(&w0, "free") {
        if count != 2 {
            return Command::Usage(UsageOf::Free);
        }
        return Command::Free(
            match parse_number(&w1, u32::MAX as u64) {
                Some(n) => Some(n as u32),
                None => None,
            },
        );
    }
    if word_is(&w0, "dump") {
        return Command::Dump;
    }
    if word_is(&w0, "stats") {
        return Command::Stats;
    }
    if word_is(&w0, "vm_init") {
        return Command::VmInit;
    }
    if word_is(&w0, "vm_access") {
        if count != 2 {
            return Command::Usage(UsageOf::VmAccess);
        }
        return Command::VmAccess(
            match parse_addr(&w1, u32::MAX as u64) {
                Some(n) => Some(n as u32),
                None => None,
            },
        );
    }
    if word_is(&w0, "vm_stats") {
        return Command::VmStats;
    }
    if word_is(&w0, "cache_init") {
        if count != 3 {
            return Command::Usage(UsageOf::CacheInit);
        }
        return Command::CacheInit(size_of_word(&w1), size_of_word(&w2));
    }
    if word_is(&w0, "cache_access") {
        if count != 2 {
            return Command::Usage(UsageOf::CacheAccess);
        }
        return Command::CacheAccess(parse_addr(&w1, u64::MAX));
    }
    if word_is(&w0, "cache_stats") {
        return Command::CacheStats;
    }
    Command::Unknown
}

} // verus!
