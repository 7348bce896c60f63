use vstd::prelude::*;

verus! {

/// Number of script generation attempts of a ReAct run.
pub const MAX_RETRIES: u32 = 2;

/// What became of one attempt of a ReAct run.
#[derive(Clone, Copy, Debug, PartialEq, Eq, Structural)]
pub enum ScriptOutcome {
    /// The engine produced no script.
    NoScript,
    /// The script ran and exited with success.
    Succeeded,
    /// The script ran and failed.
    Failed,
}

/// What a ReAct run does after an attempt.
#[derive(Clone, Copy, Debug, PartialEq, Eq, Structural)]
pub enum ReactAction {
    /// Stop with success.
    Finish,
    /// Generate a script again (after a failure, from a prompt that carries the
    /// error and the failing command's manual).
    Retry,
    /// Stop: every attempt was used.
    GiveUp,
}

/// The step after attempt `attempt` (counted from 1) of at most `max_retries`.
pub open spec fn react_next_spec(attempt: u32, max_retries: u32, outcome: ScriptOutcome) -> ReactAction {
    if outcome == ScriptOutcome::Succeeded {
        ReactAction::Finish
    } else if attempt < max_retries {
        ReactAction::Retry
    } else {
        ReactAction::GiveUp
    }
}

/// Decides what follows attempt `attempt` of a ReAct run: success ends it,
/// anything else tries again while attempts are left.
pub fn react_next(attempt: u32, max_retries: u32, outcome: ScriptOutcome) -> (r: ReactAction)
    ensures
        r == react_next_spec(attempt, max_retries, outcome),
{
    match outcome {
        ScriptOutcome::Succeeded => ReactAction::Finish,
        _ => {
            if attempt < max_retries {
                ReactAction::Retry
            } else {
                ReactAction::GiveUp
            }
        },
    }
}

/// Unicode `White_Space`, the characters `str::trim` removes.
pub open spec fn is_white_space(c: char) -> bool {
    let u = c as u32;
    ||| 0x09 <= u <= 0x0d
    ||| u == 0x20
    ||| u == 0x85
    ||| u == 0xa0
    ||| u == 0x1680
    ||| 0x2000 <= u <= 0x200a
    ||| u == 0x2028
    ||| u == 0x2029
    ||| u == 0x202f
    ||| u == 0x205f
    ||| u == 0x3000
}

/// Whether `c` is Unicode `White_Space`.
pub fn white_space(c: char) -> (r: bool)
    ensures
        r == is_white_space(c),
{
    let u = c as u32;
    (0x09 <= u && u <= 0x0d) || u == 0x20 || u == 0x85 || u == 0xa0 || u == 0x1680 || (0x2000 <= u && u
        <= 0x200a) || u == 0x2028 || u == 0x2029 || u == 0x202f || u == 0x205f || u == 0x3000
}

/// The text the shell prints for a missing command.
pub open spec fn command_not_found() -> Seq<char> {
    seq!['c', 'o', 'm', 'm', 'a', 'n', 'd', ' ', 'n', 'o', 't', ' ', 'f', 'o', 'u', 'n', 'd']
}

/// The word reported when no failing command can be named.
pub open spec fn unknown_word() -> Seq<char> {
    seq!['u', 'n', 'k', 'n', 'o', 'w', 'n']
}

/// `pat` occurs in `s` at `i`.
pub open spec fn occurs_at(s: Seq<char>, pat: Seq<char>, i: int) -> bool {
    0 <= i && i + pat.len() <= s.len() && s.subrange(i, i + pat.len()) == pat
}

/// Index of the last `c` in `s[..end]`, or -1.
pub open spec fn last_index_before(s: Seq<char>, c: char, end: int) -> int
    decreases end,
{
    if end <= 0 {
        -1
    } else if s[end - 1] == c {
        end - 1
    } else {
        last_index_before(s, c, end - 1)
    }
}

/// First index from `i` (below `end`) of a character that is not white space,
/// or `end`.
pub open spec fn skip_white_space(s: Seq<char>, i: int, end: int) -> int
    decreases end - i,
{
    if i >= end {
        end
    } else if is_white_space(s[i]) {
        skip_white_space(s, i + 1, end)
    } else {
        i
    }
}

/// End of `s[start..end]` once its trailing white space is removed.
pub open spec fn trim_end_at(s: Seq<char>, start: int, end: int) -> int
    decreases end - start,
{
    if end <= start {
        start
    } else if is_white_space(s[end - 1]) {
        trim_end_at(s, start, end - 1)
    } else {
        end
    }
}

/// First index from `i` (below `end`) of a space, or `end`.
pub open spec fn word_end(s: Seq<char>, i: int, end: int) -> int
    decreases end - i,
{
    if i >= end {
        end
    } else if s[i] == ' ' {
        i
    } else {
        word_end(s, i + 1, end)
    }
}

/// The first space-separated word of `s[start..end]` once trimmed.
pub open spec fn first_trimmed_word(s: Seq<char>, start: int, end: int) -> Seq<char> {
    let a = skip_white_space(s, start, end);
    let b = trim_end_at(s, a, end);
    s.subrange(a, word_end(s, a, b))
}

/// The command a shell error message blames: when the message says "command not
/// found" and has at least two colons, the first word of the trimmed text
/// between its last two colons; with fewer colons, the message's first word;
/// otherwise "unknown".
pub open spec fn failing_command_spec(s: Seq<char>) -> Seq<char> {
    if exists|i: int| occurs_at(s, command_not_found(), i) {
        let l = last_index_before(s, ':', s.len() as int);
        let p = last_index_before(s, ':', l);
        if l >= 0 && p >= 0 {
            first_trimmed_word(s, p + 1, l)
        } else {
            s.subrange(0, word_end(s, 0, s.len() as int))
        }
    } else {
        unknown_word()
    }
}

proof fn lemma_last_index_before(s: Seq<char>, c: char, end: int)
    requires
        0 <= end <= s.len(),
    ensures
        -1 <= last_index_before(s, c, end) < end,
        last_index_before(s, c, end) >= 0 ==> s[last_index_before(s, c, end)] == c,
    decreases end,
{
    if end > 0 && s[end - 1] != c {
        lemma_last_index_before(s, c, end - 1);
    }
}

proof fn lemma_skip_white_space(s: Seq<char>, i: int, end: int)
    requires
        i <= end,
    ensures
        i <= skip_white_space(s, i, end) <= end,
    decreases end - i,
{
    if i < end && is_white_space(s[i]) {
        lemma_skip_white_space(s, i + 1, end);
    }
}

proof fn lemma_trim_end_at(s: Seq<char>, start: int, end: int)
    requires
        start <= end,
    ensures
        start <= trim_end_at(s, start, end) <= end,
    decreases end - start,
{
    if start < end && is_white_space(s[end - 1]) {
        lemma_trim_end_at(s, start, end - 1);
    }
}

proof fn lemma_word_end(s: Seq<char>, i: int, end: int)
    requires
        i <= end,
    ensures
        i <= word_end(s, i, end) <= end,
    decreases end - i,
{
    if i < end && s[i] != ' ' {
        lemma_word_end(s, i + 1, end);
    }
}

/// Whether the pattern occurs in `s` at `i`.
fn matches_at(s: &[char], pat: &[char], i: usize) -> (r: bool)
    requires
        i <= s@.len(),
    ensures
        r == occurs_at(s@, pat@, i as int),
{
    if pat.len() > s.len() - i {
        return false;
    }
    let mut k: usize = 0;
    while k < pat.len()
        invariant
            i + pat@.len() <= s.len(),
            k <= pat@.len(),
            forall|m: int| 0 <= m < k ==> s@[i + m] == pat@[m],
        decreases pat@.len() - k,
    {
        if s[i + k] != pat[k] {
            assert(s@.subrange(i as int, i + pat@.len())[k as int] != pat@[k as int]);
            return false;
        }
        k += 1;
    }
    assert(s@.subrange(i as int, i + pat@.len()) =~= pat@);
    true
}

/// Whether "command not found" occurs in `s`.
fn says_command_not_found(s: &[char]) -> (r: bool)
    ensures
        r == exists|i: int| occurs_at(s@, command_not_found(), i),
{
    let pat: [char; 17] = ['c', 'o', 'm', 'm', 'a', 'n', 'd', ' ', 'n', 'o', 't', ' ', 'f', 'o', 'u', 'n', 'd'];
    assert(pat@ =~= command_not_found());
    let mut i: usize = 0;
    while i < s.len()
        invariant
            i <= s@.len(),
            pat@ == command_not_found(),
            forall|j: int| 0 <= j < i ==> !occurs_at(s@, command_not_found(), j),
        decreases s@.len() - i,
    {
        if matches_at(s, &pat, i) {
            return true;
        }
        i += 1;
    }
    assert forall|j: int| !occurs_at(s@, command_not_found(), j) by {
        if 0 <= j && j + 17 <= s@.len() {
            assert(j < i);
        }
    }
    false
}

/// Index of the last `c` in `s[..end]`, if any.
fn last_index(s: &[char], c: char, end: usize) -> (r: Option<usize>)
    requires
        end <= s@.len(),
    ensures
        match r {
            Some(k) => last_index_before(s@, c, end as int) == k,
            None => last_index_before(s@, c, end as int) == -1,
        },
{
    let mut e: usize = end;
    while e > 0
        invariant
            e <= end,
            end <= s@.len(),
            last_index_before(s@, c, end as int) == last_index_before(s@, c, e as int),
        decreases e,
    {
        if s[e - 1] == c {
            return Some(e - 1);
        }
        e -= 1;
    }
    None
}

/// The chars of `s[a..b]`.
fn copy_range(s: &[char], a: usize, b: usize) -> (r: Vec<char>)
    requires
        a <= b <= s@.len(),
    ensures
        r@ == s@.subrange(a as int, b as int),
{
    let mut r: Vec<char> = Vec::new();
    let mut i: usize = a;
    while i < b
        invariant
            a <= i <= b,
            b <= s@.len(),
            r@ == s@.subrange(a as int, i as int),
        decreases b - i,
    {
        r.push(s[i]);
        i += 1;
        proof {
            assert(r@ =~= s@.subrange(a as int, i as int));
        }
    }
    r
}

/// First index from `i` (below `end`) of a space, or `end`.
fn find_word_end(s: &[char], i: usize, end: usize) -> (r: usize)
    requires
        i <= end <= s@.len(),
    ensures
        r == word_end(s@, i as int, end as int),
{
    let mut k: usize = i;
    while k < end && s[k] != ' '
        invariant
            i <= k <= end,
            end <= s@.len(),
            word_end(s@, i as int, end as int) == word_end(s@, k as int, end as int),
        decreases end - k,
    {
        k += 1;
    }
    k
}

/// The command a shell error message blames (see [`failing_command_spec`]):
/// used to look up its manual before the next attempt.
pub fn failing_command(stderr: &[char]) -> (r: Vec<char>)
    ensures
        r@ == failing_command_spec(stderr@),
{
    if !says_command_not_found(stderr) {
        let r: Vec<char> = vec!['u', 'n', 'k', 'n', 'o', 'w', 'n'];
        assert(r@ =~= unknown_word());
        return r;
    }
    let n = stderr.len();
    proof {
        lemma_last_index_before(stderr@, ':', n as int);
    }
    match last_index(stderr, ':', n) {
        Some(l) => {
            proof {
                lemma_last_index_before(stderr@, ':', l as int);
            }
            match last_index(stderr, ':', l) {
                Some(p) => {
                    let mut a: usize = p + 1;
                    while a < l && white_space(stderr[a])
                        invariant
                            p + 1 <= a <= l,
                            l <= stderr@.len(),
                            skip_white_space(stderr@, p + 1, l as int) == skip_white_space(stderr@, a as int, l as int),
                        decreases l - a,
                    {
                        a += 1;
                    }
                    let mut b: usize = l;
                    while b > a && white_space(stderr[b - 1])
                        invariant
                            a <= b <= l,
                            l <= stderr@.len(),
                            trim_end_at(stderr@, a as int, l as int) == trim_end_at(stderr@, a as int, b as int),
                        decreases b,
                    {
                        b -= 1;
                    }
                    proof {
                        lemma_word_end(stderr@, a as int, b as int);
                    }
                    let e = find_word_end(stderr, a, b);
                    copy_range(stderr, a, e)
                },
                None => {
                    proof {
                        lemma_word_end(stderr@, 0, n as int);
                    }
                    let e = find_word_end(stderr, 0, n);
                    copy_range(stderr, 0, e)
                },
            }
        },
        None => {
            proof {
                lemma_word_end(stderr@, 0, n as int);
            }
            let e = find_word_end(stderr, 0, n);
            copy_range(stderr, 0, e)
        },
    }
}

} // verus!
