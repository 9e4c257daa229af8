//! Protocol parser and session state.
//!
//! One ASCII line holds one command: a verb, then space-separated
//! decimal values.  The parser trims the line, splits it on single
//! spaces (so doubled spaces yield empty tokens that fail numeric
//! parsing), dispatches on the verb, and writes the values into the
//! session's arrays through the fixed-point codec.  A parse failure
//! stops the update immediately: slots already written stay written,
//! the failing slot and everything after it keep their old values.

use vstd::prelude::*;

use crate::codec::copy_range;
use crate::codec::fofb_server_u32_to_std_vec;
use crate::codec::logic_vector_of;
use crate::codec::to_fixed;
use crate::codec::tok_fixed;

verus! {

/// Classification of one received protocol line.
#[derive(Clone, Copy, Debug, PartialEq, Eq, Structural)]
pub enum FOFBMsgType {
    /// Inverse response matrix coefficients received
    Coeff,
    /// BPM set-points received
    SetPoint,
    /// BPM positions received
    BPMPos,
    /// Gain received
    Gain,
    /// Clear accumulator command received
    ClearACC,
    /// Debug event
    Debug,
    /// Client disconnected
    Disconnected,
    /// Parsing error
    ParseErr,
    /// Exit command received
    Exit,
}

// ---------------------------------------------------------------------
// Line tokenization: trim, then split on single spaces.
// ---------------------------------------------------------------------

/// Bytes trimmed from both ends of a line.
pub open spec fn is_trim_byte(c: u8) -> bool {
    c == 32 || c == 10 || c == 13
}

/// First position at or after `i` that does not hold a trim byte.
pub open spec fn trim_start(s: Seq<u8>, i: int) -> int
    decreases s.len() - i,
{
    if 0 <= i && i < s.len() && is_trim_byte(s[i]) {
        trim_start(s, i + 1)
    } else {
        i
    }
}

/// Last position at or before `i` such that everything from there on is
/// a trim byte.
pub open spec fn trim_end(s: Seq<u8>, i: int) -> int
    decreases i,
{
    if 0 < i && i <= s.len() && is_trim_byte(s[i - 1]) {
        trim_end(s, i - 1)
    } else {
        i
    }
}

/// The line with spaces, carriage returns and line feeds removed from
/// both ends.
pub open spec fn trimmed(s: Seq<u8>) -> Seq<u8> {
    let lo = trim_start(s, 0);
    let hi = trim_end(s, s.len() as int);
    if lo < hi {
        s.subrange(lo, hi)
    } else {
        Seq::empty()
    }
}

pub proof fn lemma_trim_start_bounds(s: Seq<u8>, i: int)
    requires
        0 <= i <= s.len(),
    ensures
        i <= trim_start(s, i) <= s.len(),
    decreases s.len() - i,
{
    if i < s.len() && is_trim_byte(s[i]) {
        lemma_trim_start_bounds(s, i + 1);
    }
}

pub proof fn lemma_trim_end_bounds(s: Seq<u8>, i: int)
    requires
        0 <= i <= s.len(),
    ensures
        0 <= trim_end(s, i) <= i,
    decreases i,
{
    if 0 < i && is_trim_byte(s[i - 1]) {
        lemma_trim_end_bounds(s, i - 1);
    }
}

pub proof fn lemma_trimmed_len(s: Seq<u8>)
    ensures
        trimmed(s).len() <= s.len(),
{
    lemma_trim_start_bounds(s, 0);
    lemma_trim_end_bounds(s, s.len() as int);
}

/// Number of bytes before the next space, starting at `i`.
pub open spec fn token_len(s: Seq<u8>, i: int) -> nat
    decreases s.len() - i,
{
    if 0 <= i && i < s.len() && s[i] != 32 {
        1 + token_len(s, i + 1)
    } else {
        0
    }
}

pub proof fn lemma_token_len(s: Seq<u8>, i: int)
    requires
        0 <= i <= s.len(),
    ensures
        i + token_len(s, i) <= s.len(),
    decreases s.len() - i,
{
    if i < s.len() && s[i] != 32 {
        lemma_token_len(s, i + 1);
    }
}

/// The tokens of `s` from position `i` on: split on single spaces, so
/// an empty suffix still yields one empty token.
pub open spec fn tokens_from(s: Seq<u8>, i: int) -> Seq<Seq<u8>>
    decreases s.len() - i,
{
    if i < 0 || i > s.len() {
        Seq::empty()
    } else {
        let j = i + token_len(s, i);
        if j >= s.len() {
            seq![s.subrange(i, s.len() as int)]
        } else {
            seq![s.subrange(i, j)] + tokens_from(s, j + 1)
        }
    }
}

/// The tokens of one protocol line.
pub open spec fn line_tokens(line: Seq<u8>) -> Seq<Seq<u8>> {
    tokens_from(trimmed(line), 0)
}

// ---------------------------------------------------------------------
// The list-parse policy.
// ---------------------------------------------------------------------

/// Parses tokens `j, j+1, ...` into slots `j, j+1, ...` of `arr`,
/// stopping at whichever runs out first; a malformed token stops the
/// walk at once, leaving the failing slot and everything after it
/// unchanged, and reports failure.
pub open spec fn apply_tokens(arr: Seq<i32>, toks: Seq<Seq<u8>>, w: nat, j: nat) -> (Seq<i32>, bool)
    decreases toks.len() - j,
{
    if j >= toks.len() || j >= arr.len() {
        (arr, true)
    } else {
        match tok_fixed(toks[j as int], w) {
            None => (arr, false),
            Some(v) => apply_tokens(arr.update(j as int, v), toks, w, j + 1),
        }
    }
}

pub proof fn lemma_apply_tokens_len(arr: Seq<i32>, toks: Seq<Seq<u8>>, w: nat, j: nat)
    ensures
        apply_tokens(arr, toks, w, j).0.len() == arr.len(),
    decreases toks.len() - j,
{
    if j < toks.len() && j < arr.len() {
        match tok_fixed(toks[j as int], w) {
            None => {},
            Some(v) => {
                lemma_apply_tokens_len(arr.update(j as int, v), toks, w, j + 1);
            },
        }
    }
}

// ---------------------------------------------------------------------
// Command verbs.
// ---------------------------------------------------------------------

/// `coefficients`
pub open spec fn kw_coefficients() -> Seq<u8> {
    seq![99u8, 111u8, 101u8, 102u8, 102u8, 105u8, 99u8, 105u8, 101u8, 110u8, 116u8, 115u8]
}

/// `bpm_setpoints`
pub open spec fn kw_bpm_setpoints() -> Seq<u8> {
    seq![98u8, 112u8, 109u8, 95u8, 115u8, 101u8, 116u8, 112u8, 111u8, 105u8, 110u8, 116u8, 115u8]
}

/// `bpm_positions`
pub open spec fn kw_bpm_positions() -> Seq<u8> {
    seq![98u8, 112u8, 109u8, 95u8, 112u8, 111u8, 115u8, 105u8, 116u8, 105u8, 111u8, 110u8, 115u8]
}

/// `gain`
pub open spec fn kw_gain() -> Seq<u8> {
    seq![103u8, 97u8, 105u8, 110u8]
}

/// `clear_acc`
pub open spec fn kw_clear_acc() -> Seq<u8> {
    seq![99u8, 108u8, 101u8, 97u8, 114u8, 95u8, 97u8, 99u8, 99u8]
}

/// `debug`
pub open spec fn kw_debug() -> Seq<u8> {
    seq![100u8, 101u8, 98u8, 117u8, 103u8]
}

/// `disconnect`
pub open spec fn kw_disconnect() -> Seq<u8> {
    seq![100u8, 105u8, 115u8, 99u8, 111u8, 110u8, 110u8, 101u8, 99u8, 116u8]
}

/// `exit`
pub open spec fn kw_exit() -> Seq<u8> {
    seq![101u8, 120u8, 105u8, 116u8]
}

// ---------------------------------------------------------------------
// Session state.
// ---------------------------------------------------------------------

/// Mathematical view of a session.
pub struct SessionView {
    pub gain_frac_width: u32,
    pub coeffs_frac_width: u32,
    pub bpm_frac_width: u32,
    pub gain: i32,
    pub coeffs: Seq<i32>,
    pub bpm_sp: Seq<i32>,
    pub bpm_pos: Seq<i32>,
    pub connected: bool,
}

/// The protocol/state engine: the fixed-point configuration, the three
/// 512-element value arrays, the scalar gain, and whether a connection
/// is attached.  The byte stream itself lives with the caller; the
/// session only records that it exists.
pub struct Session {
    pub gain_frac_width: u32,
    pub coeffs_frac_width: u32,
    pub bpm_frac_width: u32,
    pub gain: i32,
    pub coeffs: Vec<i32>,
    pub bpm_sp: Vec<i32>,
    pub bpm_pos: Vec<i32>,
    pub connected: bool,
}

impl View for Session {
    type V = SessionView;

    open spec fn view(&self) -> SessionView {
        SessionView {
            gain_frac_width: self.gain_frac_width,
            coeffs_frac_width: self.coeffs_frac_width,
            bpm_frac_width: self.bpm_frac_width,
            gain: self.gain,
            coeffs: self.coeffs@,
            bpm_sp: self.bpm_sp@,
            bpm_pos: self.bpm_pos@,
            connected: self.connected,
        }
    }
}

/// What one parsed line does to a session: the new state and the
/// message kind reported to the caller.
pub open spec fn parse_line_spec(st: SessionView, line: Seq<u8>) -> (SessionView, FOFBMsgType) {
    let toks = line_tokens(line);
    let verb = toks[0];
    let rest = toks.skip(1);
    if verb == kw_coefficients() {
        let r = apply_tokens(st.coeffs, rest, st.coeffs_frac_width as nat, 0);
        (
            SessionView { coeffs: r.0, ..st },
            if r.1 {
                FOFBMsgType::Coeff
            } else {
                FOFBMsgType::ParseErr
            },
        )
    } else if verb == kw_bpm_setpoints() {
        let r = apply_tokens(st.bpm_sp, rest, st.bpm_frac_width as nat, 0);
        (
            SessionView { bpm_sp: r.0, ..st },
            if r.1 {
                FOFBMsgType::SetPoint
            } else {
                FOFBMsgType::ParseErr
            },
        )
    } else if verb == kw_bpm_positions() {
        let r = apply_tokens(st.bpm_pos, rest, st.bpm_frac_width as nat, 0);
        (
            SessionView { bpm_pos: r.0, ..st },
            if r.1 {
                FOFBMsgType::BPMPos
            } else {
                FOFBMsgType::ParseErr
            },
        )
    } else if verb == kw_gain() {
        let r = apply_tokens(seq![st.gain], rest, st.gain_frac_width as nat, 0);
        (
            SessionView { gain: r.0[0], ..st },
            if r.1 {
                FOFBMsgType::Gain
            } else {
                FOFBMsgType::ParseErr
            },
        )
    } else if verb == kw_clear_acc() {
        (st, FOFBMsgType::ClearACC)
    } else if verb == kw_debug() {
        (st, FOFBMsgType::Debug)
    } else if verb == kw_disconnect() {
        (SessionView { connected: false, ..st }, FOFBMsgType::Disconnected)
    } else if verb == kw_exit() {
        (st, FOFBMsgType::Exit)
    } else {
        (st, FOFBMsgType::ParseErr)
    }
}

/// A line whose parse reports [`FOFBMsgType::Disconnected`] always
/// leaves the session with no connection attached: set-point writes are
/// no-ops from then on, and reads classify as disconnected without
/// touching the stream.
pub proof fn lemma_disconnected_means_detached(st: SessionView, line: Seq<u8>)
    requires
        parse_line_spec(st, line).1 == FOFBMsgType::Disconnected,
    ensures
        !parse_line_spec(st, line).0.connected,
{
}

impl Session {
    /// Well-formedness: the widths stay in the 0–31 range and the three
    /// arrays hold exactly 512 entries.
    pub open spec fn wf(self) -> bool {
        &&& self.gain_frac_width <= 31
        &&& self.coeffs_frac_width <= 31
        &&& self.bpm_frac_width <= 31
        &&& self.coeffs@.len() == 512
        &&& self.bpm_sp@.len() == 512
        &&& self.bpm_pos@.len() == 512
    }

    /// Runtime check of [`Session::wf`], for callers outside the
    /// verified world.
    pub fn wf_check(&self) -> (r: bool)
        ensures
            r == self.wf(),
    {
        self.gain_frac_width <= 31 && self.coeffs_frac_width <= 31 && self.bpm_frac_width <= 31
            && self.coeffs.len() == 512 && self.bpm_sp.len() == 512 && self.bpm_pos.len() == 512
    }

    /// A fresh session: everything zero, no connection attached.
    pub fn new(gain_frac_width: u32, coeffs_frac_width: u32, bpm_frac_width: u32) -> (s: Session)
        requires
            gain_frac_width <= 31,
            coeffs_frac_width <= 31,
            bpm_frac_width <= 31,
        ensures
            s.wf(),
            s@.gain_frac_width == gain_frac_width,
            s@.coeffs_frac_width == coeffs_frac_width,
            s@.bpm_frac_width == bpm_frac_width,
            s@.gain == 0,
            forall|i: int| 0 <= i < 512 ==> s@.coeffs[i] == 0,
            forall|i: int| 0 <= i < 512 ==> s@.bpm_sp[i] == 0,
            forall|i: int| 0 <= i < 512 ==> s@.bpm_pos[i] == 0,
            !s@.connected,
    {
        Session {
            gain_frac_width,
            coeffs_frac_width,
            bpm_frac_width,
            gain: 0,
            coeffs: zero_block(),
            bpm_sp: zero_block(),
            bpm_pos: zero_block(),
            connected: false,
        }
    }

    /// Marks the connection as attached, after the caller's accept
    /// succeeded.
    pub fn attach_connection(&mut self)
        ensures
            final(self)@ == (SessionView { connected: true, ..old(self)@ }),
    {
        self.connected = true;
    }
}

/// The line with leading and trailing spaces, carriage returns and line
/// feeds removed.
fn trim_line(line: &Vec<u8>) -> (t: Vec<u8>)
    ensures
        t@ == trimmed(line@),
{
    let n = line.len();
    let mut lo: usize = 0;
    while lo < n && (line[lo] == 32 || line[lo] == 10 || line[lo] == 13)
        invariant
            lo <= n,
            n == line@.len(),
            trim_start(line@, 0) == trim_start(line@, lo as int),
        decreases n - lo,
    {
        lo = lo + 1;
    }
    let mut hi: usize = n;
    while hi > 0 && (line[hi - 1] == 32 || line[hi - 1] == 10 || line[hi - 1] == 13)
        invariant
            hi <= n,
            n == line@.len(),
            trim_end(line@, n as int) == trim_end(line@, hi as int),
        decreases hi,
    {
        hi = hi - 1;
    }
    let mut t: Vec<u8> = Vec::new();
    if lo < hi {
        copy_range(line, lo, hi, &mut t);
        proof {
            assert(t@ =~= line@.subrange(lo as int, hi as int));
        }
    } else {
        proof {
            assert(t@ =~= Seq::<u8>::empty());
        }
    }
    t
}

/// End of the token that starts at `from`.
fn scan_token(t: &Vec<u8>, from: usize) -> (j: usize)
    requires
        from <= t@.len(),
    ensures
        from <= j <= t@.len(),
        j == from + token_len(t@, from as int),
{
    let n = t.len();
    let mut j = from;
    while j < n && t[j] != 32
        invariant
            from <= j <= n,
            n == t@.len(),
            from + token_len(t@, from as int) == j + token_len(t@, j as int),
        decreases n - j,
    {
        j = j + 1;
    }
    j
}

fn bytes_eq(a: &Vec<u8>, b: &Vec<u8>) -> (r: bool)
    ensures
        r == (a@ == b@),
{
    if a.len() != b.len() {
        return false;
    }
    let mut i: usize = 0;
    while i < a.len()
        invariant
            i <= a@.len(),
            a@.len() == b@.len(),
            forall|k: int| 0 <= k < i ==> a@[k] == b@[k],
        decreases a@.len() - i,
    {
        if a[i] != b[i] {
            return false;
        }
        i = i + 1;
    }
    proof {
        assert(a@ =~= b@);
    }
    true
}

/// Parses the tokens of `line` from `start` on into consecutive slots
/// of `arr`, fixed-point encoded with width `w`, under the list-parse
/// policy of [`apply_tokens`].
fn parse_values(arr: &mut Vec<i32>, w: u32, line: &Vec<u8>, start: usize) -> (ok: bool)
    requires
        w <= 31,
        start <= line@.len() + 1,
        line@.len() < usize::MAX,
    ensures
        (final(arr)@, ok) == apply_tokens(
            old(arr)@,
            tokens_from(line@, start as int),
            w as nat,
            0,
        ),
{
    let ghost toks = tokens_from(line@, start as int);
    let ghost orig = arr@;
    let n = line.len();
    let alen = arr.len();
    let mut cur = start;
    let mut slot: usize = 0;
    proof {
        assert(toks.skip(0) =~= toks);
    }
    while slot < alen && cur <= n
        invariant
            w <= 31,
            alen == arr@.len(),
            arr@.len() == orig.len(),
            n == line@.len(),
            slot <= alen,
            cur <= n + 1,
            n < usize::MAX,
            slot <= toks.len(),
            toks == tokens_from(line@, start as int),
            orig == old(arr)@,
            tokens_from(line@, cur as int) == toks.skip(slot as int),
            apply_tokens(orig, toks, w as nat, 0) == apply_tokens(arr@, toks, w as nat, slot as nat),
        decreases alen - slot,
    {
        proof {
            lemma_token_len(line@, cur as int);
        }
        let j = scan_token(line, cur);
        let mut tokv: Vec<u8> = Vec::new();
        copy_range(line, cur, j, &mut tokv);
        proof {
            assert(tokv@ =~= line@.subrange(cur as int, j as int));
            let rest = tokens_from(line@, j as int + 1);
            if j == n {
                assert(tokens_from(line@, cur as int) == seq![line@.subrange(cur as int, n as int)]);
                assert(rest =~= Seq::<Seq<u8>>::empty());
            } else {
                assert(tokens_from(line@, cur as int) == seq![line@.subrange(cur as int, j as int)]
                    + rest);
            }
            assert(toks.skip(slot as int).len() >= 1);
            assert(slot < toks.len());
            assert(toks.skip(slot as int)[0] == toks[slot as int]);
            assert(toks[slot as int] == tokv@);
            assert(toks.skip(slot as int + 1) =~= toks.skip(slot as int).skip(1));
            assert(toks.skip(slot as int).skip(1) =~= rest);
        }
        let fx = to_fixed(&tokv, w);
        match fx {
            None => {
                return false;
            },
            Some(v) => {
                arr.set(slot, v);
            },
        }
        slot = slot + 1;
        cur = j + 1;
    }
    proof {
        if cur > n {
            assert(toks.skip(slot as int).len() == 0);
        }
    }
    true
}

fn make_kw_coefficients() -> (p: Vec<u8>)
    ensures
        p@ == kw_coefficients(),
{
    let mut p: Vec<u8> = Vec::new();
    p.push(99);
    p.push(111);
    p.push(101);
    p.push(102);
    p.push(102);
    p.push(105);
    p.push(99);
    p.push(105);
    p.push(101);
    p.push(110);
    p.push(116);
    p.push(115);
    proof {
        assert(p@ =~= kw_coefficients());
    }
    p
}

fn make_kw_bpm_setpoints() -> (p: Vec<u8>)
    ensures
        p@ == kw_bpm_setpoints(),
{
    let mut p: Vec<u8> = Vec::new();
    p.push(98);
    p.push(112);
    p.push(109);
    p.push(95);
    p.push(115);
    p.push(101);
    p.push(116);
    p.push(112);
    p.push(111);
    p.push(105);
    p.push(110);
    p.push(116);
    p.push(115);
    proof {
        assert(p@ =~= kw_bpm_setpoints());
    }
    p
}

fn make_kw_bpm_positions() -> (p: Vec<u8>)
    ensures
        p@ == kw_bpm_positions(),
{
    let mut p: Vec<u8> = Vec::new();
    p.push(98);
    p.push(112);
    p.push(109);
    p.push(95);
    p.push(112);
    p.push(111);
    p.push(115);
    p.push(105);
    p.push(116);
    p.push(105);
    p.push(111);
    p.push(110);
    p.push(115);
    proof {
        assert(p@ =~= kw_bpm_positions());
    }
    p
}

fn make_kw_gain() -> (p: Vec<u8>)
    ensures
        p@ == kw_gain(),
{
    let mut p: Vec<u8> = Vec::new();
    p.push(103);
    p.push(97);
    p.push(105);
    p.push(110);
    proof {
        assert(p@ =~= kw_gain());
    }
    p
}

fn make_kw_clear_acc() -> (p: Vec<u8>)
    ensures
        p@ == kw_clear_acc(),
{
    let mut p: Vec<u8> = Vec::new();
    p.push(99);
    p.push(108);
    p.push(101);
    p.push(97);
    p.push(114);
    p.push(95);
    p.push(97);
    p.push(99);
    p.push(99);
    proof {
        assert(p@ =~= kw_clear_acc());
    }
    p
}

fn make_kw_debug() -> (p: Vec<u8>)
    ensures
        p@ == kw_debug(),
{
    let mut p: Vec<u8> = Vec::new();
    p.push(100);
    p.push(101);
    p.push(98);
    p.push(117);
    p.push(103);
    proof {
        assert(p@ =~= kw_debug());
    }
    p
}

fn make_kw_disconnect() -> (p: Vec<u8>)
    ensures
        p@ == kw_disconnect(),
{
    let mut p: Vec<u8> = Vec::new();
    p.push(100);
    p.push(105);
    p.push(115);
    p.push(99);
    p.push(111);
    p.push(110);
    p.push(110);
    p.push(101);
    p.push(99);
    p.push(116);
    proof {
        assert(p@ =~= kw_disconnect());
    }
    p
}

fn make_kw_exit() -> (p: Vec<u8>)
    ensures
        p@ == kw_exit(),
{
    let mut p: Vec<u8> = Vec::new();
    p.push(101);
    p.push(120);
    p.push(105);
    p.push(116);
    proof {
        assert(p@ =~= kw_exit());
    }
    p
}

impl Session {
    /// Consumes one protocol line: trims and tokenizes it, dispatches on
    /// the verb, updates the addressed state under the list-parse
    /// policy, and reports the message kind.  A `disconnect` line marks
    /// the connection as gone; the caller owns the socket and shuts it
    /// down on seeing [`FOFBMsgType::Disconnected`].
    pub fn parse_line(&mut self, line: &Vec<u8>) -> (kind: FOFBMsgType)
        requires
            old(self).wf(),
            line@.len() < usize::MAX,
        ensures
            final(self).wf(),
            final(self)@ == parse_line_spec(old(self)@, line@).0,
            kind == parse_line_spec(old(self)@, line@).1,
    {
        let t = trim_line(line);
        let ghost toks = line_tokens(line@);
        proof {
            lemma_trimmed_len(line@);
        }
        let tn = t.len();
        let j0 = scan_token(&t, 0);
        let mut verb: Vec<u8> = Vec::new();
        copy_range(&t, 0, j0, &mut verb);
        let start = j0 + 1;
        proof {
            lemma_token_len(t@, 0);
            assert(verb@ =~= t@.subrange(0, j0 as int));
            if j0 == tn {
                assert(toks == seq![t@.subrange(0, tn as int)]);
                assert(toks.skip(1) =~= Seq::<Seq<u8>>::empty());
                assert(tokens_from(t@, start as int) =~= Seq::<Seq<u8>>::empty());
            } else {
                assert(toks == seq![t@.subrange(0, j0 as int)] + tokens_from(t@, start as int));
                assert(toks.skip(1) =~= tokens_from(t@, start as int));
            }
            assert(toks[0] == verb@);
        }
        if bytes_eq(&verb, &make_kw_coefficients()) {
            let w = self.coeffs_frac_width;
            let ok = parse_values(&mut self.coeffs, w, &t, start);
            proof {
                lemma_apply_tokens_len(old(self)@.coeffs, toks.skip(1), w as nat, 0);
            }
            if ok {
                FOFBMsgType::Coeff
            } else {
                FOFBMsgType::ParseErr
            }
        } else if bytes_eq(&verb, &make_kw_bpm_setpoints()) {
            let w = self.bpm_frac_width;
            let ok = parse_values(&mut self.bpm_sp, w, &t, start);
            proof {
                lemma_apply_tokens_len(old(self)@.bpm_sp, toks.skip(1), w as nat, 0);
            }
            if ok {
                FOFBMsgType::SetPoint
            } else {
                FOFBMsgType::ParseErr
            }
        } else if bytes_eq(&verb, &make_kw_bpm_positions()) {
            let w = self.bpm_frac_width;
            let ok = parse_values(&mut self.bpm_pos, w, &t, start);
            proof {
                lemma_apply_tokens_len(old(self)@.bpm_pos, toks.skip(1), w as nat, 0);
            }
            if ok {
                FOFBMsgType::BPMPos
            } else {
                FOFBMsgType::ParseErr
            }
        } else if bytes_eq(&verb, &make_kw_gain()) {
            let w = self.gain_frac_width;
            let mut gv: Vec<i32> = Vec::new();
            gv.push(self.gain);
            proof {
                assert(gv@ =~= seq![old(self)@.gain]);
            }
            let ok = parse_values(&mut gv, w, &t, start);
            proof {
                lemma_apply_tokens_len(seq![old(self)@.gain], toks.skip(1), w as nat, 0);
            }
            self.gain = gv[0];
            if ok {
                FOFBMsgType::Gain
            } else {
                FOFBMsgType::ParseErr
            }
        } else if bytes_eq(&verb, &make_kw_clear_acc()) {
            FOFBMsgType::ClearACC
        } else if bytes_eq(&verb, &make_kw_debug()) {
            FOFBMsgType::Debug
        } else if bytes_eq(&verb, &make_kw_disconnect()) {
            self.connected = false;
            FOFBMsgType::Disconnected
        } else if bytes_eq(&verb, &make_kw_exit()) {
            FOFBMsgType::Exit
        } else {
            FOFBMsgType::ParseErr
        }
    }

    /// Classifies the outcome of one blocking line read.  No line means
    /// the stream ended or none was attached: the connection is marked
    /// gone and the caller sees [`FOFBMsgType::Disconnected`]; a line is
    /// handed to [`Session::parse_line`].
    pub fn next_message(&mut self, line: Option<&Vec<u8>>) -> (kind: FOFBMsgType)
        requires
            old(self).wf(),
            match line {
                Some(l) => l@.len() < usize::MAX,
                None => true,
            },
        ensures
            final(self).wf(),
            match line {
                None => final(self)@ == (SessionView { connected: false, ..old(self)@ }) && kind
                    == FOFBMsgType::Disconnected,
                Some(l) => final(self)@ == parse_line_spec(old(self)@, l@).0 && kind
                    == parse_line_spec(old(self)@, l@).1,
            },
    {
        match line {
            None => {
                self.connected = false;
                FOFBMsgType::Disconnected
            },
            Some(l) => self.parse_line(l),
        }
    }
}

// ---------------------------------------------------------------------
// Accessor layer.
// ---------------------------------------------------------------------

/// Decimal ASCII digits of `n`, most significant first, no leading
/// zeros (a single `0` for zero).
pub open spec fn dec_digits_spec(n: nat) -> Seq<u8>
    decreases n,
{
    if n < 10 {
        seq![(48 + n) as u8]
    } else {
        dec_digits_spec(n / 10) + seq![(48 + (n % 10)) as u8]
    }
}

/// Decimal ASCII of a signed value.
pub open spec fn dec_repr(v: int) -> Seq<u8> {
    if v < 0 {
        seq![45u8] + dec_digits_spec((-v) as nat)
    } else {
        dec_digits_spec(v as nat)
    }
}

/// Appends the decimal digits of `n` to `out`.
fn push_dec_u32(n: u32, out: &mut Vec<u8>)
    ensures
        final(out)@ == old(out)@ + dec_digits_spec(n as nat),
    decreases n,
{
    if n < 10 {
        out.push(48 + n as u8);
        proof {
            assert(out@ =~= old(out)@ + dec_digits_spec(n as nat));
        }
    } else {
        push_dec_u32(n / 10, out);
        out.push(48 + (n % 10) as u8);
        proof {
            assert(out@ =~= old(out)@ + dec_digits_spec(n as nat));
        }
    }
}

impl Session {
    /// Reads coefficient `index` as a logic vector into `coeff`; an
    /// out-of-range index is a no-op that leaves the buffer untouched.
    pub fn read_coeff(&self, index: u32, coeff: &mut [u8; 32])
        requires
            self.wf(),
        ensures
            index < 512 ==> final(coeff)@ == logic_vector_of(self@.coeffs[index as int] as u32),
            index >= 512 ==> final(coeff)@ == old(coeff)@,
    {
        if (index as usize) < self.coeffs.len() {
            let value = self.coeffs[index as usize];
            fofb_server_u32_to_std_vec(#[verifier::truncate] (value as u32), coeff);
        }
    }

    /// Reads BPM set-point `index` as a logic vector into `bpm_sp`; an
    /// out-of-range index is a no-op that leaves the buffer untouched.
    pub fn read_sp(&self, index: u32, bpm_sp: &mut [u8; 32])
        requires
            self.wf(),
        ensures
            index < 512 ==> final(bpm_sp)@ == logic_vector_of(self@.bpm_sp[index as int] as u32),
            index >= 512 ==> final(bpm_sp)@ == old(bpm_sp)@,
    {
        if (index as usize) < self.bpm_sp.len() {
            let value = self.bpm_sp[index as usize];
            fofb_server_u32_to_std_vec(#[verifier::truncate] (value as u32), bpm_sp);
        }
    }

    /// Reads BPM position `index` as a logic vector into `bpm_pos`; an
    /// out-of-range index is a no-op that leaves the buffer untouched.
    pub fn read_bpm_pos(&self, index: u32, bpm_pos: &mut [u8; 32])
        requires
            self.wf(),
        ensures
            index < 512 ==> final(bpm_pos)@ == logic_vector_of(self@.bpm_pos[index as int] as u32),
            index >= 512 ==> final(bpm_pos)@ == old(bpm_pos)@,
    {
        if (index as usize) < self.bpm_pos.len() {
            let value = self.bpm_pos[index as usize];
            fofb_server_u32_to_std_vec(#[verifier::truncate] (value as u32), bpm_pos);
        }
    }

    /// The gain as a plain integer, no encoding.
    pub fn read_gain(&self) -> (g: i32)
        ensures
            g == self@.gain,
    {
        self.gain
    }

    /// The line sent back to the client for one set-point value: its
    /// decimal ASCII representation and a line feed.  `None` when no
    /// connection is attached: the write is then a no-op.
    pub fn write_sp_payload(&self, corrector_sp: i32) -> (r: Option<Vec<u8>>)
        ensures
            self@.connected ==> (r is Some && r.unwrap()@ == dec_repr(corrector_sp as int)
                + seq![10u8]),
            !self@.connected ==> (r is None),
    {
        if self.connected {
            let mut v: Vec<u8> = Vec::new();
            if corrector_sp < 0 {
                v.push(45);
                let m: u32 = if corrector_sp == i32::MIN {
                    0x8000_0000
                } else {
                    (0 - corrector_sp) as u32
                };
                push_dec_u32(m, &mut v);
            } else {
                push_dec_u32(corrector_sp as u32, &mut v);
            }
            v.push(10);
            proof {
                assert(v@ =~= dec_repr(corrector_sp as int) + seq![10u8]);
            }
            Some(v)
        } else {
            None
        }
    }
}

/// 512 zeroed fixed-point slots.
fn zero_block() -> (v: Vec<i32>)
    ensures
        v@.len() == 512,
        forall|i: int| 0 <= i < 512 ==> v@[i] == 0,
{
    let mut v: Vec<i32> = Vec::new();
    let mut i: usize = 0;
    while i < 512
        invariant
            i <= 512,
            v@.len() == i,
            forall|k: int| 0 <= k < i ==> v@[k] == 0,
        decreases 512 - i,
    {
        v.push(0);
        i = i + 1;
    }
    v
}

} // verus!
