use std::collections::HashMap;
use vstd::prelude::*;
use vstd::utf8::encode_utf8;
use crate::utils::{get_hash_val, hash_spec};
use crate::text::{
    chars_of, find_in, find_sep, lemma_split_len, parse_u8_range, parse_u8_spec, range_views,
    ranges_within, split_on, split_range, trim_range, trim_spec, utf8_of_range,
};

verus! {

broadcast use vstd::std_specs::hash::group_hash_axioms;

/// The class of a byte, identified by the hash of the class name.
#[derive(Debug, PartialEq, Eq, Hash, Clone, Copy, Structural)]
pub struct TokenType(pub u32);

/// A tokenizer state, identified by the hash of the state name.
#[derive(Debug, PartialEq, Eq, Hash, Clone, Copy, Structural)]
pub struct State(pub u32);

/// A run of bytes together with the class of the byte that ended it.
#[derive(Debug, PartialEq, Eq)]
pub struct Token {
    pub value: Vec<u8>,
    pub t: TokenType,
}

/// Turns bytes into tokens by walking a transition table over byte classes.
pub struct Tokenizer {
    token_map: HashMap<u8, TokenType>,
    transition_map: HashMap<u32, HashMap<u32, State>>,
}

/// The hash of the UTF-8 bytes of a name.
pub open spec fn name_hash(s: Seq<char>) -> int {
    hash_spec(encode_utf8(s))
}

/// The line separator.
pub open spec fn newline() -> Seq<char> {
    seq!['\n']
}

/// The field separator `=>`.
pub open spec fn arrow() -> Seq<char> {
    seq!['=', '>']
}

/// The range separator `..`.
pub open spec fn dots() -> Seq<char> {
    seq!['.', '.']
}

/// The list separator `,`.
pub open spec fn comma() -> Seq<char> {
    seq![',']
}

/// The alternative separator `|`.
pub open spec fn bar() -> Seq<char> {
    seq!['|']
}

/// The lines of a rule text.
pub open spec fn text_lines(text: Seq<char>) -> Seq<Seq<char>> {
    split_on(text, newline())
}

/// The `=>`-separated fields of a rule line, each trimmed.
pub open spec fn line_fields(line: Seq<char>) -> Seq<Seq<char>> {
    split_on(line, arrow()).map_values(|f: Seq<char>| trim_spec(f))
}

/// Every piece reads as a decimal byte.
pub open spec fn all_parse(parts: Seq<Seq<char>>) -> bool {
    forall|i: int| 0 <= i < parts.len() ==> (#[trigger] parse_u8_spec(parts[i])) is Some
}

/// A byte list reads without error: `lo..hi`, a comma-separated list, or one byte.
pub open spec fn values_ok(v: Seq<char>) -> bool {
    if find_sep(v, dots()) >= 0 {
        all_parse(split_on(v, dots()))
    } else if find_sep(v, comma()) >= 0 {
        all_parse(split_on(v, comma()))
    } else {
        parse_u8_spec(v) is Some
    }
}

/// The bytes `lo, lo + 1, .., hi - 1`.
pub open spec fn byte_range(lo: u8, hi: u8) -> Seq<u8> {
    Seq::new(if lo < hi { (hi - lo) as nat } else { 0 }, |k: int| (lo + k) as u8)
}

/// The bytes a byte list names: the half-open range between the first two
/// `..`-separated bounds, every comma-separated byte, or the one byte.
pub open spec fn values_of(v: Seq<char>) -> Seq<u8> {
    if find_sep(v, dots()) >= 0 {
        let p = split_on(v, dots());
        byte_range(parse_u8_spec(p[0])->0, parse_u8_spec(p[1])->0)
    } else if find_sep(v, comma()) >= 0 {
        split_on(v, comma()).map_values(|p: Seq<char>| parse_u8_spec(p)->0)
    } else {
        seq![parse_u8_spec(v)->0]
    }
}

/// A class rule line is blank-named, or lists bytes that read without error and, when
/// it names at least one byte, names a class whose hash fits in 32 bits.
pub open spec fn token_line_ok(line: Seq<char>) -> bool {
    let f = line_fields(line);
    f[0].len() == 0 || (f.len() >= 2 && values_ok(f[1]) && (values_of(f[1]).len() > 0
        ==> name_hash(f[0]) <= u32::MAX))
}

/// Every line of a class rule text is well formed.
pub open spec fn token_rules_ok(text: Seq<char>) -> bool {
    forall|i: int| 0 <= i < text_lines(text).len() ==> token_line_ok(#[trigger] text_lines(text)[i])
}

/// The byte classes given by rule lines read in order, later lines overriding earlier ones.
pub open spec fn token_table_from(lines: Seq<Seq<char>>) -> Map<u8, u32>
    decreases lines.len(),
{
    if lines.len() == 0 {
        Map::empty()
    } else {
        token_line_update(token_table_from(lines.drop_last()), lines.last())
    }
}

/// The byte-class table after reading one more rule line.
pub open spec fn token_line_update(m: Map<u8, u32>, line: Seq<char>) -> Map<u8, u32> {
    let f = line_fields(line);
    if f[0].len() == 0 {
        m
    } else {
        let vals = values_of(f[1]);
        let h = name_hash(f[0]) as u32;
        m.union_prefer_right(Map::new(|u: u8| vals.contains(u), |u: u8| h))
    }
}

/// The byte-class table of a class rule text.
pub open spec fn token_table(text: Seq<char>) -> Map<u8, u32> {
    token_table_from(text_lines(text))
}

/// The class table with each class by its hash.
pub open spec fn token_map_view(m: Map<u8, TokenType>) -> Map<u8, u32> {
    m.map_values(|t: TokenType| t.0)
}

/// A transition rule line is blank-named, or has a source, a `|`-separated list of
/// classes and a target, all of whose names hash within 32 bits.
pub open spec fn state_line_ok(line: Seq<char>) -> bool {
    let f = line_fields(line);
    f[0].len() == 0 || {
        &&& f.len() >= 3
        &&& name_hash(f[0]) <= u32::MAX
        &&& name_hash(f[2]) <= u32::MAX
        &&& forall|i: int|
            0 <= i < split_on(f[1], bar()).len() ==> name_hash(
                trim_spec(#[trigger] split_on(f[1], bar())[i]),
            ) <= u32::MAX
    }
}

/// Every line of a transition rule text is well formed.
pub open spec fn state_rules_ok(text: Seq<char>) -> bool {
    forall|i: int| 0 <= i < text_lines(text).len() ==> state_line_ok(#[trigger] text_lines(text)[i])
}

/// The class hashes a transition line lists.
pub open spec fn line_class_hashes(f1: Seq<char>) -> Seq<int> {
    split_on(f1, bar()).map_values(|t: Seq<char>| name_hash(trim_spec(t)))
}

/// Adds the transitions from `start` on each class of `keys` to `end`, keeping any
/// transition already present.
pub open spec fn add_transitions(
    m: Map<u32, Map<u32, u32>>,
    start: u32,
    keys: Seq<int>,
    end: u32,
) -> Map<u32, Map<u32, u32>> {
    let inner = if m.contains_key(start) {
        m[start]
    } else {
        Map::empty()
    };
    m.insert(
        start,
        Map::new(|k: u32| keys.contains(k as int), |k: u32| end).union_prefer_right(inner),
    )
}

/// The transitions given by rule lines read in order, earlier lines taking precedence.
pub open spec fn state_table_from(lines: Seq<Seq<char>>) -> Map<u32, Map<u32, u32>>
    decreases lines.len(),
{
    if lines.len() == 0 {
        Map::empty()
    } else {
        state_line_update(state_table_from(lines.drop_last()), lines.last())
    }
}

/// The transition table after reading one more rule line.
pub open spec fn state_line_update(m: Map<u32, Map<u32, u32>>, line: Seq<char>) -> Map<
    u32,
    Map<u32, u32>,
> {
    let f = line_fields(line);
    if f[0].len() == 0 {
        m
    } else {
        add_transitions(m, name_hash(f[0]) as u32, line_class_hashes(f[1]), name_hash(f[2]) as u32)
    }
}

/// The transition table of a transition rule text.
pub open spec fn state_table(text: Seq<char>) -> Map<u32, Map<u32, u32>> {
    state_table_from(text_lines(text))
}

/// The transition table with each target state by its hash.
pub open spec fn transitions_view(m: Map<u32, HashMap<u32, State>>) -> Map<u32, Map<u32, u32>> {
    Map::new(|k: u32| m.contains_key(k), |k: u32| m[k]@.map_values(|s: State| s.0))
}


/// The bytes of the name `Start`.
pub open spec fn start_name() -> Seq<u8> {
    seq![83u8, 116u8, 97u8, 114u8, 116u8]
}

/// The state every run begins in: the hash of `Start`.
pub open spec fn start_state() -> u32 {
    hash_spec(start_name()) as u32
}

/// A point in a tokenizer run: the unread input, the bytes of the token being
/// collected, the current state, the class of the previous byte, and what has been
/// emitted so far.
pub struct TokenizerRun {
    pub raw: Seq<u8>,
    pub cur: Seq<u8>,
    pub state: u32,
    pub last_t: u32,
    pub tokens: Seq<(u32, Seq<u8>)>,
    pub states: Seq<u32>,
}

/// The run before any input is read.
pub open spec fn initial_run(input: Seq<u8>) -> TokenizerRun {
    TokenizerRun {
        raw: input,
        cur: Seq::empty(),
        state: start_state(),
        last_t: 0,
        tokens: Seq::empty(),
        states: Seq::empty(),
    }
}

/// The class of a byte, 0 for a byte without one.
pub open spec fn byte_class(classes: Map<u8, u32>, b: u8) -> u32 {
    if classes.contains_key(b) {
        classes[b]
    } else {
        0
    }
}

/// Emits the token being collected, with class `t`, as ending in state `st`.
pub open spec fn emit(c: TokenizerRun, t: u32, st: u32) -> TokenizerRun {
    TokenizerRun {
        raw: c.raw,
        cur: Seq::empty(),
        state: c.state,
        last_t: c.last_t,
        tokens: c.tokens.push((t, c.cur)),
        states: c.states.push(st),
    }
}

/// Consumes the next byte, adding it to the token being collected when `keep` holds.
pub open spec fn consume(c: TokenizerRun, keep: bool) -> TokenizerRun {
    TokenizerRun {
        raw: c.raw.drop_first(),
        cur: if keep {
            c.cur.push(c.raw[0])
        } else {
            c.cur
        },
        state: c.state,
        last_t: c.last_t,
        tokens: c.tokens,
        states: c.states,
    }
}

/// Sets the current state and the class of the byte just looked at.
pub open spec fn move_to(c: TokenizerRun, st: u32, t: u32) -> TokenizerRun {
    TokenizerRun {
        raw: c.raw,
        cur: c.cur,
        state: st,
        last_t: t,
        tokens: c.tokens,
        states: c.states,
    }
}

/// One step of a run, looking at the next input byte of class `bt`:
/// - with no transition on `bt`: a byte of class 0 is dropped; otherwise the token
///   being collected is emitted and the run goes back to the start state;
/// - with a transition to `v`: outside the start state, staying in the same state
///   takes the byte into the token, and moving elsewhere emits the token;
///   the run then moves to `v`.
/// When the input runs out, the token being collected is emitted with class `bt`.
pub open spec fn step(
    classes: Map<u8, u32>,
    trans: Map<u32, Map<u32, u32>>,
    c: TokenizerRun,
) -> TokenizerRun {
    finish_step(step_mid(classes, trans, c), byte_class(classes, c.raw[0]))
}

/// The part of a step before the end of the input is checked.
pub open spec fn step_mid(
    classes: Map<u8, u32>,
    trans: Map<u32, Map<u32, u32>>,
    c: TokenizerRun,
) -> TokenizerRun {
    let bt = byte_class(classes, c.raw[0]);
    let row = trans[c.state];
    if !row.contains_key(bt) {
        if bt != 0 {
            move_to(emit(c, c.last_t, c.state), start_state(), bt)
        } else {
            move_to(consume(c, false), c.state, bt)
        }
    } else {
        let v = row[bt];
        if c.state == start_state() {
            move_to(c, v, bt)
        } else if v == c.state {
            move_to(consume(c, true), v, bt)
        } else {
            move_to(emit(c, c.last_t, c.state), v, bt)
        }
    }
}

/// Emits the last token, with class `bt`, once the input has run out.
pub open spec fn finish_step(mid: TokenizerRun, bt: u32) -> TokenizerRun {
    if mid.raw.len() == 0 {
        emit(mid, bt, mid.state)
    } else {
        mid
    }
}

/// The run reaches the end of its input within `n` steps without looking up a state
/// that has no transitions.
pub open spec fn halts_within(
    classes: Map<u8, u32>,
    trans: Map<u32, Map<u32, u32>>,
    c: TokenizerRun,
    n: nat,
) -> bool
    decreases n,
{
    c.raw.len() == 0 || (n > 0 && trans.contains_key(c.state) && halts_within(
        classes,
        trans,
        step(classes, trans, c),
        (n - 1) as nat,
    ))
}

/// The run after at most `n` steps, stopping at the end of the input.
pub open spec fn run_for(
    classes: Map<u8, u32>,
    trans: Map<u32, Map<u32, u32>>,
    c: TokenizerRun,
    n: nat,
) -> TokenizerRun
    decreases n,
{
    if c.raw.len() == 0 || n == 0 {
        c
    } else {
        run_for(classes, trans, step(classes, trans, c), (n - 1) as nat)
    }
}

/// Tokenizing `input` ends.
pub open spec fn tokenize_halts(
    classes: Map<u8, u32>,
    trans: Map<u32, Map<u32, u32>>,
    input: Seq<u8>,
) -> bool {
    exists|n: nat| halts_within(classes, trans, initial_run(input), n)
}

/// Where tokenizing `input` ends.
pub open spec fn tokenize_spec(
    classes: Map<u8, u32>,
    trans: Map<u32, Map<u32, u32>>,
    input: Seq<u8>,
) -> TokenizerRun {
    run_for(
        classes,
        trans,
        initial_run(input),
        choose|n: nat| halts_within(classes, trans, initial_run(input), n),
    )
}

/// The emitted tokens by class and bytes.
pub open spec fn tokens_view(v: Seq<Token>) -> Seq<(u32, Seq<u8>)> {
    v.map_values(|t: Token| (t.t.0, t.value@))
}

/// The emitted states by hash.
pub open spec fn states_view(v: Seq<State>) -> Seq<u32> {
    v.map_values(|s: State| s.0)
}

/// The hash of the UTF-8 bytes of `s[lo..hi]`.
fn hash_range(s: &Vec<char>, lo: usize, hi: usize) -> (h: u32)
    requires
        lo <= hi <= s.len(),
        name_hash(s@.subrange(lo as int, hi as int)) <= u32::MAX,
    ensures
        h == name_hash(s@.subrange(lo as int, hi as int)),
{
    let bytes = utf8_of_range(s, lo, hi);
    get_hash_val(bytes.as_slice())
}

/// The trimmed `=>`-separated fields of `s[lo..hi]`, as ranges of `s`.
fn fields_of(s: &Vec<char>, lo: usize, hi: usize) -> (r: Vec<(usize, usize)>)
    requires
        lo <= hi <= s.len(),
    ensures
        ranges_within(r@, 0, s.len() as int),
        range_views(s@, r@) == line_fields(s@.subrange(lo as int, hi as int)),
        r.len() >= 1,
{
    let arrow_sep = vec!['=', '>'];
    assert(arrow_sep@ =~= arrow());
    let parts = split_range(s, lo, hi, arrow_sep.as_slice());
    proof {
        lemma_split_len(s@.subrange(lo as int, hi as int), arrow());
    }
    let mut out: Vec<(usize, usize)> = Vec::new();
    let mut i: usize = 0;
    while i < parts.len()
        invariant
            i <= parts.len(),
            lo <= hi <= s.len(),
            ranges_within(parts@, lo as int, hi as int),
            range_views(s@, parts@) == split_on(s@.subrange(lo as int, hi as int), arrow()),
            ranges_within(out@, 0, s.len() as int),
            out.len() == i,
            forall|j: int|
                0 <= j < i ==> s@.subrange(#[trigger] out@[j].0 as int, out@[j].1 as int)
                    == trim_spec(range_views(s@, parts@)[j]),
        decreases parts.len() - i,
    {
        let (a, b) = parts[i];
        assert(lo <= parts@[i as int].0 <= parts@[i as int].1 <= hi);
        let t = trim_range(s, a, b);
        out.push(t);
        i = i + 1;
    }
    assert(range_views(s@, out@) =~= line_fields(s@.subrange(lo as int, hi as int)));
    out
}


/// Reads every piece of `s` given by `parts` as a byte, in order.
fn parse_all(s: &Vec<char>, parts: &Vec<(usize, usize)>) -> (r: Vec<u8>)
    requires
        ranges_within(parts@, 0, s.len() as int),
        all_parse(range_views(s@, parts@)),
    ensures
        r@ == range_views(s@, parts@).map_values(|p: Seq<char>| parse_u8_spec(p)->0),
{
    let mut out: Vec<u8> = Vec::new();
    let mut i: usize = 0;
    while i < parts.len()
        invariant
            i <= parts.len(),
            ranges_within(parts@, 0, s.len() as int),
            all_parse(range_views(s@, parts@)),
            out@ == range_views(s@, parts@).take(i as int).map_values(
                |p: Seq<char>| parse_u8_spec(p)->0,
            ),
        decreases parts.len() - i,
    {
        let (a, b) = parts[i];
        assert(0 <= parts@[i as int].0 <= parts@[i as int].1 <= s.len());
        assert(parse_u8_spec(range_views(s@, parts@)[i as int]) is Some);
        let v = parse_u8_range(s, a, b).unwrap();
        out.push(v);
        assert(range_views(s@, parts@).take(i + 1) =~= range_views(s@, parts@).take(i as int).push(
            range_views(s@, parts@)[i as int],
        ));
        assert(out@ =~= range_views(s@, parts@).take(i + 1).map_values(
            |p: Seq<char>| parse_u8_spec(p)->0,
        ));
        i = i + 1;
    }
    assert(range_views(s@, parts@).take(i as int) =~= range_views(s@, parts@));
    out
}

/// The bytes that the byte list `s[lo..hi]` names.
fn values_of_range(s: &Vec<char>, lo: usize, hi: usize) -> (r: Vec<u8>)
    requires
        lo <= hi <= s.len(),
        values_ok(s@.subrange(lo as int, hi as int)),
    ensures
        r@ == values_of(s@.subrange(lo as int, hi as int)),
{
    let ghost v = s@.subrange(lo as int, hi as int);
    let dots_sep = vec!['.', '.'];
    assert(dots_sep@ =~= dots());
    let comma_sep = vec![','];
    assert(comma_sep@ =~= comma());
    if find_in(s, lo, hi, dots_sep.as_slice()).is_some() {
        let parts = split_range(s, lo, hi, dots_sep.as_slice());
        proof {
            lemma_split_len(v, dots());
        }
        let bounds = parse_all(s, &parts);
        let first = bounds[0];
        let last = bounds[1];
        let mut out: Vec<u8> = Vec::new();
        let mut x = first;
        while x < last
            invariant
                first <= x <= last || (x == first && first >= last),
                out@ == byte_range(first, x),
            decreases last - x,
        {
            out.push(x);
            x = x + 1;
            assert(out@ =~= byte_range(first, x));
        }
        assert(out@ =~= byte_range(first, last));
        out
    } else if find_in(s, lo, hi, comma_sep.as_slice()).is_some() {
        let parts = split_range(s, lo, hi, comma_sep.as_slice());
        parse_all(s, &parts)
    } else {
        let one = parse_u8_range(s, lo, hi).unwrap();
        let mut out: Vec<u8> = Vec::new();
        out.push(one);
        assert(out@ =~= seq![one]);
        out
    }
}

/// Reads the class rule line `s[lo..hi]` into `token_map`.
fn add_token_line(token_map: &mut HashMap<u8, TokenType>, s: &Vec<char>, lo: usize, hi: usize)
    requires
        lo <= hi <= s.len(),
        token_line_ok(s@.subrange(lo as int, hi as int)),
    ensures
        token_map_view(final(token_map)@) == token_line_update(
            token_map_view(old(token_map)@),
            s@.subrange(lo as int, hi as int),
        ),
{
    let fields = fields_of(s, lo, hi);
    let (n0, n1) = fields[0];
    assert(0 <= fields@[0].0 <= fields@[0].1 <= s.len());
    if n0 == n1 {
        assert(line_fields(s@.subrange(lo as int, hi as int))[0].len() == 0);
    } else {
        let (v0, v1) = fields[1];
        assert(0 <= fields@[1].0 <= fields@[1].1 <= s.len());
        let vals = values_of_range(s, v0, v1);
        if vals.len() == 0 {
            let ghost line = s@.subrange(lo as int, hi as int);
            assert(token_map_view(token_map@).union_prefer_right(
                Map::new(|u: u8| vals@.contains(u), |u: u8| name_hash(line_fields(line)[0]) as u32),
            ) =~= token_map_view(token_map@));
            return ;
        }
        let h = hash_range(s, n0, n1);
        let ghost base = token_map@;
        let mut k: usize = 0;
        while k < vals.len()
            invariant
                k <= vals.len(),
                token_map_view(token_map@) == token_map_view(base).union_prefer_right(
                    Map::new(|u: u8| vals@.take(k as int).contains(u), |u: u8| h),
                ),
            decreases vals.len() - k,
        {
            let u = vals[k];
            let ghost prev = token_map@;
            token_map.insert(u, TokenType(h));
            proof {
                assert(vals@.take(k + 1) =~= vals@.take(k as int).push(u));
                let newset = Map::new(|w: u8| vals@.take(k + 1).contains(w), |w: u8| h);
                let oldset = Map::new(|w: u8| vals@.take(k as int).contains(w), |w: u8| h);
                assert forall|w: u8| #[trigger]
                    newset.contains_key(w) <==> (oldset.contains_key(w) || w == u) by {
                    broadcast use vstd::seq_lib::lemma_seq_contains_after_push;

                }
                assert(token_map_view(token_map@) =~= token_map_view(prev).insert(u, h));
                assert(token_map_view(prev).insert(u, h) =~= token_map_view(
                    base,
                ).union_prefer_right(newset));
            }
            k = k + 1;
        }
        assert(vals@.take(k as int) =~= vals@);
    }
}

/// Reads the transition rule line `s[lo..hi]` into `parsed`.
fn add_state_line(
    parsed: &mut HashMap<u32, HashMap<u32, State>>,
    s: &Vec<char>,
    lo: usize,
    hi: usize,
)
    requires
        lo <= hi <= s.len(),
        state_line_ok(s@.subrange(lo as int, hi as int)),
    ensures
        transitions_view(final(parsed)@) == state_line_update(
            transitions_view(old(parsed)@),
            s@.subrange(lo as int, hi as int),
        ),
{
    let ghost line = s@.subrange(lo as int, hi as int);
    let fields = fields_of(s, lo, hi);
    let (n0, n1) = fields[0];
    assert(0 <= fields@[0].0 <= fields@[0].1 <= s.len());
    if n0 == n1 {
        assert(line_fields(line)[0].len() == 0);
        return ;
    }
    let (t0, t1) = fields[1];
    let (e0, e1) = fields[2];
    assert(0 <= fields@[1].0 <= fields@[1].1 <= s.len());
    assert(0 <= fields@[2].0 <= fields@[2].1 <= s.len());
    let start = hash_range(s, n0, n1);
    let bar_sep = vec!['|'];
    assert(bar_sep@ =~= bar());
    let classes = split_range(s, t0, t1, bar_sep.as_slice());
    let end = hash_range(s, e0, e1);
    let ghost keys = line_class_hashes(line_fields(line)[1]);
    let ghost before = transitions_view(parsed@);
    let ghost inner0: Map<u32, u32> = if before.contains_key(start) {
        before[start]
    } else {
        Map::empty()
    };
    let mut inner: HashMap<u32, State> = match parsed.remove(&start) {
        Some(m) => m,
        None => HashMap::new(),
    };
    assert(inner@.map_values(|x: State| x.0) =~= inner0);
    let ghost rest = parsed@;
    let mut k: usize = 0;
    while k < classes.len()
        invariant
            k <= classes.len(),
            ranges_within(classes@, t0 as int, t1 as int),
            t1 <= s.len(),
            range_views(s@, classes@) == split_on(line_fields(line)[1], bar()),
            keys == line_class_hashes(line_fields(line)[1]),
            state_line_ok(line),
            line_fields(line)[0].len() > 0,
            inner@.map_values(|x: State| x.0) == Map::new(
                |c: u32| keys.take(k as int).contains(c as int),
                |c: u32| end,
            ).union_prefer_right(inner0),
        decreases classes.len() - k,
    {
        let (c0, c1) = classes[k];
        assert(t0 <= classes@[k as int].0 <= classes@[k as int].1 <= t1);
        let (a, b) = trim_range(s, c0, c1);
        assert(s@.subrange(c0 as int, c1 as int) == split_on(line_fields(line)[1], bar())[k as int]);
        let h = hash_range(s, a, b);
        assert(keys[k as int] == h);
        let ghost prev = inner@;
        if !inner.contains_key(&h) {
            inner.insert(h, State(end));
        }
        proof {
            assert(keys.take(k + 1) =~= keys.take(k as int).push(h as int));
            let newset = Map::new(|c: u32| keys.take(k + 1).contains(c as int), |c: u32| end);
            let oldset = Map::new(|c: u32| keys.take(k as int).contains(c as int), |c: u32| end);
            assert forall|c: u32| #[trigger]
                newset.contains_key(c) <==> (oldset.contains_key(c) || c == h) by {
                broadcast use vstd::seq_lib::lemma_seq_contains_after_push;

            }
            let pv = prev.map_values(|x: State| x.0);
            assert(pv == oldset.union_prefer_right(inner0));
            if prev.contains_key(h) {
                assert(inner@ == prev);
                assert(pv =~= newset.union_prefer_right(inner0));
            } else {
                assert(inner@ == prev.insert(h, State(end)));
                assert(inner@.map_values(|x: State| x.0) =~= pv.insert(h, end));
                assert(!pv.contains_key(h));
                assert(!inner0.contains_key(h));
                assert(newset.contains_key(h));
                assert forall|c: u32| #[trigger] pv.insert(h, end).contains_key(c) <==> newset.union_prefer_right(inner0).contains_key(c) by {
                    assert(newset.contains_key(c) <==> (oldset.contains_key(c) || c == h));
                }
                assert(pv.insert(h, end) =~= newset.union_prefer_right(inner0));
            }
        }
        k = k + 1;
    }
    assert(keys.take(k as int) =~= keys);
    parsed.insert(start, inner);
    assert(transitions_view(parsed@) =~= add_transitions(before, start, keys, end));
}

/// The hash of `Start`.
fn start_hash() -> (h: u32)
    ensures
        h == start_state(),
{
    let name = "Start".as_bytes();
    proof {
        reveal_strlit("Start");
        vstd::utf8::is_ascii_chars_encode_utf8("Start"@);
        assert(name@ =~= start_name());
        let sn = start_name();
        let s1 = seq![83u8];
        let s2 = seq![83u8, 116u8];
        let s3 = seq![83u8, 116u8, 97u8];
        let s4 = seq![83u8, 116u8, 97u8, 114u8];
        assert(s1.drop_last() =~= Seq::<u8>::empty());
        assert(s2.drop_last() =~= s1);
        assert(s3.drop_last() =~= s2);
        assert(s4.drop_last() =~= s3);
        assert(sn.drop_last() =~= s4);
        assert(hash_spec(Seq::<u8>::empty()) == 0);
        assert(hash_spec(s1) == 0);
        assert(hash_spec(s2) == 116);
        assert(hash_spec(s3) == 116 + 194);
        assert(hash_spec(s4) == 116 + 194 + 342);
        assert(hash_spec(sn) == 1116);
    }
    get_hash_val(name)
}

impl Tokenizer {
    /// The byte classes, each by the hash of its name.
    pub closed spec fn class_table(&self) -> Map<u8, u32> {
        token_map_view(self.token_map@)
    }

    /// The transitions: for each state, the target state for each byte class.
    pub closed spec fn transition_table(&self) -> Map<u32, Map<u32, u32>> {
        transitions_view(self.transition_map@)
    }

    /// Builds a tokenizer from a byte-class rule text and a transition rule text.
    pub fn new(token_map: &str, transition_map: &str) -> (t: Self)
        requires
            token_rules_ok(token_map@),
            state_rules_ok(transition_map@),
        ensures
            t.class_table() == token_table(token_map@),
            t.transition_table() == state_table(transition_map@),
    {
        Tokenizer {
            token_map: Tokenizer::compile_tokens_ascii(token_map),
            transition_map: Tokenizer::compile_states(transition_map),
        }
    }

    /// Splits `token_str` into tokens, walking the transition table from the start
    /// state (see `step`); gives the tokens and, for each, the state it ended in.
    pub fn tokenize(&mut self, token_str: &Vec<u8>) -> (r: (Vec<Token>, Vec<State>))
        requires
            tokenize_halts(old(self).class_table(), old(self).transition_table(), token_str@),
        ensures
            *final(self) == *old(self),
            tokens_view(r.0@) == tokenize_spec(
                old(self).class_table(),
                old(self).transition_table(),
                token_str@,
            ).tokens,
            states_view(r.1@) == tokenize_spec(
                old(self).class_table(),
                old(self).transition_table(),
                token_str@,
            ).states,
            r.0.len() == r.1.len(),
    {
        let ghost classes = self.class_table();
        let ghost trans = self.transition_table();
        let ghost n0 = choose|n: nat| halts_within(classes, trans, initial_run(token_str@), n);
        let mut tokens: Vec<Token> = Vec::new();
        let mut states: Vec<State> = Vec::new();
        let mut curr_token: Vec<u8> = Vec::new();
        let start = start_hash();
        let mut curr_state = State(start);
        let mut last_byte_t = TokenType(0);
        let mut pos: usize = 0;
        let ghost mut fuel: nat = n0;
        proof {
            assert(token_str@.skip(0) =~= token_str@);
            assert(tokens_view(tokens@) =~= Seq::<(u32, Seq<u8>)>::empty());
            assert(states_view(states@) =~= Seq::<u32>::empty());
        }
        while pos < token_str.len()
            invariant
                pos <= token_str.len(),
                start == start_state(),
                classes == self.class_table(),
                trans == self.transition_table(),
                tokens.len() == states.len(),
                ({
                    let c = TokenizerRun {
                        raw: token_str@.skip(pos as int),
                        cur: curr_token@,
                        state: curr_state.0,
                        last_t: last_byte_t.0,
                        tokens: tokens_view(tokens@),
                        states: states_view(states@),
                    };
                    &&& halts_within(classes, trans, c, fuel)
                    &&& run_for(classes, trans, c, fuel) == run_for(
                        classes,
                        trans,
                        initial_run(token_str@),
                        n0,
                    )
                }),
            decreases fuel,
        {
            let ghost c = TokenizerRun {
                raw: token_str@.skip(pos as int),
                cur: curr_token@,
                state: curr_state.0,
                last_t: last_byte_t.0,
                tokens: tokens_view(tokens@),
                states: states_view(states@),
            };
            let ghost next = step(classes, trans, c);
            let curr_byte = token_str[pos];
            assert(c.raw[0] == curr_byte);
            assert(token_str@.skip(pos as int).drop_first() =~= token_str@.skip(pos + 1));
            let curr_byte_t = match self.token_map.get(&curr_byte) {
                None => TokenType(0),
                Some(v) => TokenType(v.0),
            };
            assert(curr_byte_t.0 == byte_class(classes, curr_byte));
            let row = self.transition_map.get(&curr_state.0).unwrap();
            assert(row@.map_values(|x: State| x.0) == trans[curr_state.0]);
            let new_state = match row.get(&curr_byte_t.0) {
                None => {
                    assert(!trans[curr_state.0].contains_key(curr_byte_t.0));
                    if curr_byte_t.0 != 0 {
                        tokens.push(Token { t: TokenType(last_byte_t.0), value: curr_token });
                        states.push(State(curr_state.0));
                        curr_token = Vec::new();
                        State(start)
                    } else {
                        pos = pos + 1;
                        State(curr_state.0)
                    }
                },
                Some(v) => {
                    assert(trans[curr_state.0].contains_key(curr_byte_t.0));
                    assert(trans[curr_state.0][curr_byte_t.0] == v.0);
                    if v.0 == curr_state.0 && curr_state.0 != start {
                        curr_token.push(curr_byte);
                        pos = pos + 1;
                    }
                    if v.0 != curr_state.0 && curr_state.0 != start {
                        tokens.push(Token { t: TokenType(last_byte_t.0), value: curr_token });
                        states.push(State(curr_state.0));
                        curr_token = Vec::new();
                    }
                    State(v.0)
                },
            };
            proof {
                let m = TokenizerRun {
                    raw: token_str@.skip(pos as int),
                    cur: curr_token@,
                    state: new_state.0,
                    last_t: curr_byte_t.0,
                    tokens: tokens_view(tokens@),
                    states: states_view(states@),
                };
                let sm = step_mid(classes, trans, c);
                assert(m.raw =~= sm.raw);
                assert(m.cur =~= sm.cur);
                assert(m.tokens =~= sm.tokens);
                assert(m.states =~= sm.states);
                assert(m == sm);
            }
            if pos == token_str.len() {
                tokens.push(Token { t: TokenType(curr_byte_t.0), value: curr_token });
                states.push(State(new_state.0));
                curr_token = Vec::new();
            }
            last_byte_t = curr_byte_t;
            curr_state = new_state;
            proof {
                let c2 = TokenizerRun {
                    raw: token_str@.skip(pos as int),
                    cur: curr_token@,
                    state: curr_state.0,
                    last_t: last_byte_t.0,
                    tokens: tokens_view(tokens@),
                    states: states_view(states@),
                };
                assert(c2.raw =~= next.raw);
                assert(c2.cur =~= next.cur);
                assert(c2.tokens =~= next.tokens);
                assert(c2.states =~= next.states);
                assert(c2 == next);
                fuel = (fuel - 1) as nat;
            }
        }
        proof {
            let c = TokenizerRun {
                raw: token_str@.skip(pos as int),
                cur: curr_token@,
                state: curr_state.0,
                last_t: last_byte_t.0,
                tokens: tokens_view(tokens@),
                states: states_view(states@),
            };
            assert(c.raw.len() == 0);
        }
        (tokens, states)
    }

    /// Reads a byte-class rule text: one rule per line, `Name => bytes`, where the
    /// bytes are `lo..hi` (half-open), a comma-separated list, or one decimal byte.
    /// Lines with an empty name are skipped; a byte listed again takes the later class.
    pub fn compile_tokens_ascii(tokens: &str) -> (token_map: HashMap<u8, TokenType>)
        requires
            token_rules_ok(tokens@),
        ensures
            token_map_view(token_map@) == token_table(tokens@),
    {
        let s = chars_of(tokens);
        assert(s@.subrange(0, s.len() as int) =~= s@);
        let nl = vec!['\n'];
        assert(nl@ =~= newline());
        let lines = split_range(&s, 0, s.len(), nl.as_slice());
        let ghost all = text_lines(s@);
        let mut token_map: HashMap<u8, TokenType> = HashMap::new();
        let mut li: usize = 0;
        while li < lines.len()
            invariant
                li <= lines.len(),
                s@ == tokens@,
                token_rules_ok(s@),
                all == text_lines(s@),
                ranges_within(lines@, 0, s.len() as int),
                range_views(s@, lines@) == all,
                token_map_view(token_map@) == token_table_from(all.take(li as int)),
            decreases lines.len() - li,
        {
            let (lo, hi) = lines[li];
            assert(0 <= lines@[li as int].0 <= lines@[li as int].1 <= s.len());
            let ghost line = all[li as int];
            assert(line == s@.subrange(lo as int, hi as int));
            assert(all.take(li + 1).drop_last() =~= all.take(li as int));
            assert(all.take(li + 1).last() == line);
            assert(token_line_ok(line));
            add_token_line(&mut token_map, &s, lo, hi);
            li = li + 1;
        }
        assert(all.take(li as int) =~= all);
        token_map
    }

    /// Reads a transition rule text: one rule per line, `From => A | B | .. => To`.
    /// Lines with an empty source name are skipped; a transition already present
    /// for a state and class is kept.
    pub fn compile_states(transition_map: &str) -> (parsed: HashMap<u32, HashMap<u32, State>>)
        requires
            state_rules_ok(transition_map@),
        ensures
            transitions_view(parsed@) == state_table(transition_map@),
    {
        let s = chars_of(transition_map);
        assert(s@.subrange(0, s.len() as int) =~= s@);
        let nl = vec!['\n'];
        assert(nl@ =~= newline());
        let lines = split_range(&s, 0, s.len(), nl.as_slice());
        let ghost all = text_lines(s@);
        let mut parsed: HashMap<u32, HashMap<u32, State>> = HashMap::new();
        assert(transitions_view(parsed@) =~= state_table_from(all.take(0)));
        let mut li: usize = 0;
        while li < lines.len()
            invariant
                li <= lines.len(),
                s@ == transition_map@,
                state_rules_ok(s@),
                all == text_lines(s@),
                ranges_within(lines@, 0, s.len() as int),
                range_views(s@, lines@) == all,
                transitions_view(parsed@) == state_table_from(all.take(li as int)),
            decreases lines.len() - li,
        {
            let (lo, hi) = lines[li];
            assert(0 <= lines@[li as int].0 <= lines@[li as int].1 <= s.len());
            let ghost line = all[li as int];
            assert(line == s@.subrange(lo as int, hi as int));
            assert(all.take(li + 1).drop_last() =~= all.take(li as int));
            assert(all.take(li + 1).last() == line);
            assert(state_line_ok(line));
            add_state_line(&mut parsed, &s, lo, hi);
            li = li + 1;
        }
        assert(all.take(li as int) =~= all);
        parsed
    }
}


/// The bytes of the tokens, one token after another.
pub open spec fn flatten(toks: Seq<(u32, Seq<u8>)>) -> Seq<u8>
    decreases toks.len(),
{
    if toks.len() == 0 {
        Seq::empty()
    } else {
        flatten(toks.drop_last()) + toks.last().1
    }
}

/// `a` can be obtained from `b` by deleting bytes.
pub open spec fn is_subseq(a: Seq<u8>, b: Seq<u8>) -> bool
    decreases b.len(),
{
    if a.len() == 0 {
        true
    } else if b.len() == 0 {
        false
    } else if a.last() == b.last() {
        is_subseq(a.drop_last(), b.drop_last())
    } else {
        is_subseq(a, b.drop_last())
    }
}

proof fn lemma_subseq_push_both(a: Seq<u8>, b: Seq<u8>, x: u8)
    requires
        is_subseq(a, b),
    ensures
        is_subseq(a.push(x), b.push(x)),
{
    assert(a.push(x).drop_last() =~= a);
    assert(b.push(x).drop_last() =~= b);
}

proof fn lemma_subseq_push_right(a: Seq<u8>, b: Seq<u8>, x: u8)
    requires
        is_subseq(a, b),
    ensures
        is_subseq(a, b.push(x)),
    decreases b.len(), 1int,
{
    assert(b.push(x).drop_last() =~= b);
    if a.len() > 0 && a.last() == x {
        lemma_subseq_drop_left(a, b);
    }
}

proof fn lemma_subseq_drop_left(a: Seq<u8>, b: Seq<u8>)
    requires
        is_subseq(a, b),
        a.len() > 0,
    ensures
        is_subseq(a.drop_last(), b),
    decreases b.len(), 0int,
{
    if a.last() == b.last() {
        lemma_subseq_push_right(a.drop_last(), b.drop_last(), b.last());
        assert(b.drop_last().push(b.last()) =~= b);
    } else {
        lemma_subseq_drop_left(a, b.drop_last());
        lemma_subseq_push_right(a.drop_last(), b.drop_last(), b.last());
        assert(b.drop_last().push(b.last()) =~= b);
    }
}

/// What a run keeps of its input: the input is what has been read followed by `raw`,
/// the emitted bytes followed by the token being collected come from what has been
/// read, in order, and nothing is being collected once the input has run out.
pub open spec fn run_keeps_order(c: TokenizerRun, input: Seq<u8>) -> bool {
    let read = input.len() - c.raw.len();
    &&& c.raw.len() <= input.len()
    &&& input.skip(read) == c.raw
    &&& is_subseq(flatten(c.tokens) + c.cur, input.take(read))
    &&& (c.raw.len() == 0 ==> c.cur.len() == 0)
}

proof fn lemma_emit_keeps_order(c: TokenizerRun, input: Seq<u8>, t: u32, st: u32)
    requires
        run_keeps_order(c, input),
    ensures
        ({
            let e = emit(c, t, st);
            &&& e.raw == c.raw
            &&& flatten(e.tokens) + e.cur == flatten(c.tokens) + c.cur
        }),
{
    let e = emit(c, t, st);
    assert(e.tokens.drop_last() =~= c.tokens);
    assert(flatten(e.tokens) + e.cur =~= flatten(c.tokens) + c.cur);
}

proof fn lemma_step_keeps_order(
    classes: Map<u8, u32>,
    trans: Map<u32, Map<u32, u32>>,
    c: TokenizerRun,
    input: Seq<u8>,
)
    requires
        run_keeps_order(c, input),
        c.raw.len() > 0,
    ensures
        run_keeps_order(step(classes, trans, c), input),
{
    let n = input.len();
    let read = n - c.raw.len();
    let b = c.raw[0];
    assert(input[read] == b) by {
        assert(input.skip(read)[0] == input[read]);
    }
    assert(input.take(read + 1) =~= input.take(read).push(b));
    assert(input.skip(read + 1) =~= c.raw.drop_first());
    let kept = flatten(c.tokens) + c.cur;
    let mid = step_mid(classes, trans, c);
    let bt = byte_class(classes, b);
    let row = trans[c.state];
    let mread = n - mid.raw.len();
    assert(is_subseq(flatten(mid.tokens) + mid.cur, input.take(mread)) && mid.raw.len() <= n
        && input.skip(mread) == mid.raw) by {
        if !row.contains_key(bt) {
            if bt != 0 {
                lemma_emit_keeps_order(c, input, c.last_t, c.state);
            } else {
                lemma_subseq_push_right(kept, input.take(read), b);
            }
        } else {
            let v = row[bt];
            if c.state == start_state() {
            } else if v == c.state {
                lemma_subseq_push_both(kept, input.take(read), b);
                assert(flatten(mid.tokens) + mid.cur =~= kept.push(b));
            } else {
                lemma_emit_keeps_order(c, input, c.last_t, c.state);
            }
        }
    }
    if mid.raw.len() == 0 {
        let e = emit(mid, bt, mid.state);
        assert(e.tokens.drop_last() =~= mid.tokens);
        assert(flatten(e.tokens) + e.cur =~= flatten(mid.tokens) + mid.cur);
    }
}

proof fn lemma_run_keeps_order(
    classes: Map<u8, u32>,
    trans: Map<u32, Map<u32, u32>>,
    c: TokenizerRun,
    input: Seq<u8>,
    n: nat,
)
    requires
        run_keeps_order(c, input),
    ensures
        run_keeps_order(run_for(classes, trans, c, n), input),
    decreases n,
{
    if c.raw.len() > 0 && n > 0 {
        lemma_step_keeps_order(classes, trans, c, input);
        lemma_run_keeps_order(classes, trans, step(classes, trans, c), input, (n - 1) as nat);
    }
}

proof fn lemma_halting_run_reads_all(
    classes: Map<u8, u32>,
    trans: Map<u32, Map<u32, u32>>,
    c: TokenizerRun,
    n: nat,
)
    requires
        halts_within(classes, trans, c, n),
    ensures
        run_for(classes, trans, c, n).raw.len() == 0,
    decreases n,
{
    if c.raw.len() > 0 {
        lemma_halting_run_reads_all(classes, trans, step(classes, trans, c), (n - 1) as nat);
    }
}

/// Tokenizing keeps the input in order: the bytes of the tokens, one token after
/// another, are the input with some bytes left out (those of no class that have no
/// transition), never reordered or repeated.
pub proof fn lemma_tokens_follow_input(
    classes: Map<u8, u32>,
    trans: Map<u32, Map<u32, u32>>,
    input: Seq<u8>,
)
    requires
        tokenize_halts(classes, trans, input),
    ensures
        is_subseq(flatten(tokenize_spec(classes, trans, input).tokens), input),
{
    let n0 = choose|n: nat| halts_within(classes, trans, initial_run(input), n);
    let c0 = initial_run(input);
    assert(input.skip(0) =~= input);
    assert(flatten(c0.tokens) + c0.cur =~= Seq::<u8>::empty());
    assert(is_subseq(Seq::<u8>::empty(), input.take(0)));
    lemma_run_keeps_order(classes, trans, c0, input, n0);
    lemma_halting_run_reads_all(classes, trans, c0, n0);
    let r = tokenize_spec(classes, trans, input);
    assert(flatten(r.tokens) + r.cur =~= flatten(r.tokens));
    assert(input.take(input.len() as int) =~= input);
}


/// In state `st`, a byte `b` leads back to `st`.
pub open spec fn stays_on(
    classes: Map<u8, u32>,
    trans: Map<u32, Map<u32, u32>>,
    st: u32,
    b: u8,
) -> bool {
    &&& trans.contains_key(st)
    &&& trans[st].contains_key(byte_class(classes, b))
    &&& trans[st][byte_class(classes, b)] == st
}

/// Each emitted token is paired with a state, and every byte of the token leads from
/// that state back to it; so does every byte being collected, from the current state;
/// and nothing is being collected in the start state.
pub open spec fn run_pairs_states(
    classes: Map<u8, u32>,
    trans: Map<u32, Map<u32, u32>>,
    c: TokenizerRun,
) -> bool {
    &&& c.tokens.len() == c.states.len()
    &&& forall|i: int, k: int|
        0 <= i < c.tokens.len() && 0 <= k < c.tokens[i].1.len() ==> stays_on(
            classes,
            trans,
            c.states[i],
            #[trigger] c.tokens[i].1[k],
        )
    &&& forall|k: int| 0 <= k < c.cur.len() ==> stays_on(classes, trans, c.state, #[trigger] c.cur[k])
    &&& c.state == start_state() ==> c.cur.len() == 0
}

proof fn lemma_emit_pairs(
    classes: Map<u8, u32>,
    trans: Map<u32, Map<u32, u32>>,
    c: TokenizerRun,
    t: u32,
)
    requires
        run_pairs_states(classes, trans, c),
    ensures
        ({
            let e = emit(c, t, c.state);
            &&& e.tokens.len() == e.states.len()
            &&& forall|i: int, k: int|
                0 <= i < e.tokens.len() && 0 <= k < e.tokens[i].1.len() ==> stays_on(
                    classes,
                    trans,
                    e.states[i],
                    #[trigger] e.tokens[i].1[k],
                )
            &&& e.cur.len() == 0
        }),
{
    let e = emit(c, t, c.state);
    assert forall|i: int, k: int|
        0 <= i < e.tokens.len() && 0 <= k < e.tokens[i].1.len() implies stays_on(
        classes,
        trans,
        e.states[i],
        #[trigger] e.tokens[i].1[k],
    ) by {
        if i < c.tokens.len() {
            assert(e.tokens[i] == c.tokens[i] && e.states[i] == c.states[i]);
        } else {
            assert(e.tokens[i].1 == c.cur && e.states[i] == c.state);
        }
    }
}

proof fn lemma_step_pairs(classes: Map<u8, u32>, trans: Map<u32, Map<u32, u32>>, c: TokenizerRun)
    requires
        run_pairs_states(classes, trans, c),
        c.raw.len() > 0,
        trans.contains_key(c.state),
    ensures
        run_pairs_states(classes, trans, step(classes, trans, c)),
{
    let b = c.raw[0];
    let bt = byte_class(classes, b);
    let row = trans[c.state];
    let mid = step_mid(classes, trans, c);
    assert(run_pairs_states(classes, trans, mid)) by {
        if !row.contains_key(bt) {
            if bt != 0 {
                lemma_emit_pairs(classes, trans, c, c.last_t);
            } else {
            }
        } else {
            let v = row[bt];
            if c.state == start_state() {
            } else if v == c.state {
                assert(stays_on(classes, trans, c.state, b));
                assert forall|k: int| 0 <= k < mid.cur.len() implies stays_on(
                    classes,
                    trans,
                    mid.state,
                    #[trigger] mid.cur[k],
                ) by {
                    if k < c.cur.len() {
                        assert(mid.cur[k] == c.cur[k]);
                    }
                }
            } else {
                lemma_emit_pairs(classes, trans, c, c.last_t);
            }
        }
    }
    if mid.raw.len() == 0 {
        lemma_emit_pairs(classes, trans, mid, bt);
    }
}

proof fn lemma_run_pairs(
    classes: Map<u8, u32>,
    trans: Map<u32, Map<u32, u32>>,
    c: TokenizerRun,
    n: nat,
)
    requires
        run_pairs_states(classes, trans, c),
        halts_within(classes, trans, c, n),
    ensures
        run_pairs_states(classes, trans, run_for(classes, trans, c, n)),
    decreases n,
{
    if c.raw.len() > 0 && n > 0 {
        lemma_step_pairs(classes, trans, c);
        lemma_run_pairs(classes, trans, step(classes, trans, c), (n - 1) as nat);
    }
}

/// Each token is paired with the state it was collected in: every byte of token `i`
/// leads, by its class, from state `states[i]` back to `states[i]`, as a byte is only
/// taken into a token while the run stays in one state.
pub proof fn lemma_token_states(
    classes: Map<u8, u32>,
    trans: Map<u32, Map<u32, u32>>,
    input: Seq<u8>,
)
    requires
        tokenize_halts(classes, trans, input),
    ensures
        tokenize_spec(classes, trans, input).tokens.len() == tokenize_spec(
            classes,
            trans,
            input,
        ).states.len(),
        forall|i: int, k: int|
            0 <= i < tokenize_spec(classes, trans, input).tokens.len() && 0 <= k
                < tokenize_spec(classes, trans, input).tokens[i].1.len() ==> stays_on(
                classes,
                trans,
                tokenize_spec(classes, trans, input).states[i],
                #[trigger] tokenize_spec(classes, trans, input).tokens[i].1[k],
            ),
{
    let n0 = choose|n: nat| halts_within(classes, trans, initial_run(input), n);
    lemma_run_pairs(classes, trans, initial_run(input), n0);
}

} // verus!
