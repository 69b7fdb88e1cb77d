//! Relay fanout state: per-session scrollback with a byte cap, the set of
//! connected browsers, and the live-session map keyed by session code.
//!
//! Scrollback keeps whole broadcast frames, oldest first. The sum of the
//! retained frames' lengths never exceeds [`MAX_SCROLLBACK`]: appending a
//! frame evicts the oldest frames until the sum fits again. Each retained
//! frame carries a one-byte id-length prefix followed by the terminal
//! session id it belongs to, so frames of a dead terminal session can be
//! purged without scanning payloads.

use vstd::prelude::*;

verus! {

/// Cap on the sum of frame lengths kept in one session's scrollback: 1 MiB.
pub const MAX_SCROLLBACK: usize = 1048576;

/// Sum of the lengths of a sequence of frames.
pub open spec fn sum_len(frames: Seq<Seq<u8>>) -> int
    decreases frames.len(),
{
    if frames.len() == 0 {
        0
    } else {
        frames[0].len() + sum_len(frames.drop_first())
    }
}

/// What remains of `frames` after evicting the oldest frames until the
/// sum of lengths is at most [`MAX_SCROLLBACK`].
pub open spec fn evict(frames: Seq<Seq<u8>>) -> Seq<Seq<u8>>
    decreases frames.len(),
{
    if sum_len(frames) <= MAX_SCROLLBACK || frames.len() == 0 {
        frames
    } else {
        evict(frames.drop_first())
    }
}

/// A frame is well formed when it holds its full embedded session id:
/// one length byte, then that many id bytes.
pub open spec fn frame_ok(f: Seq<u8>) -> bool {
    f.len() >= 1 && f.len() >= 1 + f[0]
}

/// The terminal session id embedded in a well-formed frame.
pub open spec fn embedded_id(f: Seq<u8>) -> Seq<u8>
    recommends
        frame_ok(f),
{
    f.subrange(1, 1 + f[0] as int)
}

/// A purge for `tid` keeps exactly the well-formed frames of other sessions.
pub open spec fn keep_frame(f: Seq<u8>, tid: Seq<u8>) -> bool {
    frame_ok(f) && embedded_id(f) != tid
}

pub proof fn lemma_sum_len_nonneg(frames: Seq<Seq<u8>>)
    ensures
        sum_len(frames) >= 0,
    decreases frames.len(),
{
    if frames.len() > 0 {
        lemma_sum_len_nonneg(frames.drop_first());
    }
}

pub proof fn lemma_sum_len_push(frames: Seq<Seq<u8>>, f: Seq<u8>)
    ensures
        sum_len(frames.push(f)) == sum_len(frames) + f.len(),
    decreases frames.len(),
{
    let p = frames.push(f);
    assert(p.len() == frames.len() + 1);
    assert(sum_len(p) == p[0].len() + sum_len(p.drop_first()));
    if frames.len() == 0 {
        assert(p.drop_first() =~= Seq::<Seq<u8>>::empty());
        assert(sum_len(p.drop_first()) == 0);
        assert(p[0] == f);
    } else {
        assert(p.drop_first() =~= frames.drop_first().push(f));
        lemma_sum_len_push(frames.drop_first(), f);
        assert(p[0] == frames[0]);
        assert(sum_len(frames) == frames[0].len() + sum_len(frames.drop_first()));
    }
}

/// Eviction always brings the sum of lengths under the cap.
pub proof fn lemma_evict_bounded(frames: Seq<Seq<u8>>)
    ensures
        sum_len(evict(frames)) <= MAX_SCROLLBACK,
    decreases frames.len(),
{
    if sum_len(frames) <= MAX_SCROLLBACK || frames.len() == 0 {
    } else {
        lemma_evict_bounded(frames.drop_first());
    }
}

/// What eviction keeps is a suffix of the frames: the newest survive.
pub proof fn lemma_evict_is_suffix(frames: Seq<Seq<u8>>)
    ensures
        exists|k: int|
            0 <= k <= frames.len() && evict(frames) =~= frames.subrange(k, frames.len() as int),
    decreases frames.len(),
{
    if sum_len(frames) <= MAX_SCROLLBACK || frames.len() == 0 {
        assert(evict(frames) =~= frames.subrange(0, frames.len() as int));
    } else {
        lemma_evict_is_suffix(frames.drop_first());
        let k0 = choose|k: int|
            0 <= k <= frames.drop_first().len() && evict(frames.drop_first())
                =~= frames.drop_first().subrange(k, frames.drop_first().len() as int);
        assert(frames.drop_first().subrange(k0, frames.drop_first().len() as int)
            =~= frames.subrange(k0 + 1, frames.len() as int));
        assert(0 <= k0 + 1 <= frames.len() && evict(frames) =~= frames.subrange(
            k0 + 1,
            frames.len() as int,
        ));
    }
}

/// Eviction is maximal: any longer suffix than the kept one is over the cap.
pub proof fn lemma_evict_maximal(frames: Seq<Seq<u8>>, j: int)
    requires
        0 <= j <= frames.len(),
        frames.subrange(j, frames.len() as int).len() > evict(frames).len(),
    ensures
        sum_len(frames.subrange(j, frames.len() as int)) > MAX_SCROLLBACK,
    decreases frames.len(),
{
    if sum_len(frames) <= MAX_SCROLLBACK || frames.len() == 0 {
        // evict(frames) == frames, no longer suffix exists
        assert(frames.subrange(j, frames.len() as int).len() <= frames.len());
    } else {
        if j == 0 {
            assert(frames.subrange(0, frames.len() as int) =~= frames);
        } else {
            assert(frames.subrange(j, frames.len() as int) =~= frames.drop_first().subrange(
                j - 1,
                frames.drop_first().len() as int,
            ));
            lemma_evict_maximal(frames.drop_first(), j - 1);
        }
    }
}

/// Bounded scrollback of broadcast frames, oldest first.
pub struct Scrollback {
    frames: Vec<Vec<u8>>,
    total: usize,
}

impl View for Scrollback {
    type V = Seq<Seq<u8>>;

    closed spec fn view(&self) -> Seq<Seq<u8>> {
        self.frames@.map_values(|f: Vec<u8>| f@)
    }
}

impl Scrollback {
    /// The cached byte count matches the frames and respects the cap.
    pub closed spec fn wf(self) -> bool {
        self.total == sum_len(self@) && sum_len(self@) <= MAX_SCROLLBACK
    }

    pub fn new() -> (r: Scrollback)
        ensures
            r.wf(),
            r@ =~= Seq::<Seq<u8>>::empty(),
    {
        Scrollback { frames: Vec::new(), total: 0 }
    }

    /// Number of bytes currently retained.
    pub fn total_bytes(&self) -> (r: usize)
        requires
            self.wf(),
        ensures
            r == sum_len(self@),
    {
        self.total
    }

    /// Number of frames currently retained.
    pub fn frame_count(&self) -> (r: usize)
        ensures
            r == self@.len(),
    {
        self.frames.len()
    }

    /// Append a broadcast frame, then drop the oldest frames until the
    /// byte count fits the cap again. A frame larger than the whole cap
    /// is itself dropped by the same rule.
    pub fn push_frame(&mut self, frame: Vec<u8>)
        requires
            old(self).wf(),
            frame@.len() <= usize::MAX - MAX_SCROLLBACK,
        ensures
            final(self).wf(),
            final(self)@ == evict(old(self)@.push(frame@)),
            sum_len(final(self)@) <= MAX_SCROLLBACK,
    {
        proof {
            lemma_sum_len_push(self@, frame@);
        }
        let ghost pushed = self@.push(frame@);
        let flen = frame.len();
        self.frames.push(frame);
        self.total = self.total + flen;
        proof {
            assert(self@ =~= pushed);
        }
        while self.total > MAX_SCROLLBACK
            invariant
                self.total == sum_len(self@),
                evict(self@) == evict(pushed),
            decreases self@.len(),
        {
            proof {
                if self@.len() == 0 {
                    assert(sum_len(self@) == 0);
                }
                lemma_sum_len_nonneg(self@.drop_first());
            }
            let ghost before = self@;
            let removed = self.frames.remove(0);
            proof {
                assert(self@ =~= before.drop_first());
            }
            self.total = self.total - removed.len();
        }
        proof {
            lemma_evict_bounded(pushed);
        }
    }

    /// Remove every frame whose embedded terminal session id is `tid`,
    /// together with any malformed frame, and recount the bytes.
    pub fn purge(&mut self, tid: &Vec<u8>)
        requires
            old(self).wf(),
        ensures
            final(self).wf(),
            final(self)@ == old(self)@.filter(|f: Seq<u8>| keep_frame(f, tid@)),
    {
        let ghost pred = |f: Seq<u8>| keep_frame(f, tid@);
        let ghost orig = self@;
        let mut kept: Vec<Vec<u8>> = Vec::new();
        let mut kept_total: usize = 0;
        let n = self.frames.len();
        let mut i: usize = 0;
        proof {
            assert(orig.take(0) =~= Seq::<Seq<u8>>::empty());
            reveal_with_fuel(Seq::<Seq<u8>>::filter, 1);
        }
        while i < n
            invariant
                n == self.frames@.len(),
                self@ == orig,
                self.wf(),
                0 <= i <= n,
                kept@.map_values(|f: Vec<u8>| f@) == orig.take(i as int).filter(pred),
                kept_total == sum_len(kept@.map_values(|f: Vec<u8>| f@)),
                kept_total <= sum_len(orig.take(i as int)),
                pred == (|f: Seq<u8>| keep_frame(f, tid@)),
            decreases n - i,
        {
            let f = &self.frames[i];
            let keep = frame_keeps(f, tid);
            proof {
                assert(orig.take(i + 1).drop_last() =~= orig.take(i as int));
                assert(orig.take(i + 1).last() == orig[i as int]);
                reveal_with_fuel(Seq::<Seq<u8>>::filter, 2);
                lemma_sum_len_take_step(orig, i as int);
            }
            if keep {
                let copy = copy_bytes(f);
                let clen = copy.len();
                let ghost kept_before = kept@.map_values(|f: Vec<u8>| f@);
                proof {
                    lemma_sum_len_split(orig, i + 1);
                    lemma_sum_len_nonneg(orig.skip(i + 1));
                }
                kept.push(copy);
                proof {
                    assert(kept@.map_values(|f: Vec<u8>| f@) =~= kept_before.push(f@));
                    lemma_sum_len_push(kept_before, f@);
                }
                kept_total = kept_total + clen;
            }
            i = i + 1;
        }
        proof {
            assert(orig.take(n as int) =~= orig);
        }
        self.frames = kept;
        self.total = kept_total;
    }

    /// Clone of the retained frames, oldest first, for replay to a newly
    /// connected browser.
    pub fn snapshot(&self) -> (r: Vec<Vec<u8>>)
        ensures
            r@.map_values(|f: Vec<u8>| f@) == self@,
    {
        let mut r: Vec<Vec<u8>> = Vec::new();
        let mut i: usize = 0;
        let n = self.frames.len();
        while i < n
            invariant
                n == self.frames@.len(),
                0 <= i <= n,
                r@.map_values(|f: Vec<u8>| f@) =~= self@.take(i as int),
            decreases n - i,
        {
            let ghost before = r@.map_values(|f: Vec<u8>| f@);
            r.push(copy_bytes(&self.frames[i]));
            proof {
                assert(r@.map_values(|f: Vec<u8>| f@) =~= before.push(self@[i as int]));
                assert(self@.take(i + 1) =~= self@.take(i as int).push(self@[i as int]));
            }
            i = i + 1;
        }
        proof {
            assert(self@.take(n as int) =~= self@);
        }
        r
    }
}

/// Sum of lengths grows by the length of the step frame.
proof fn lemma_sum_len_take_step(frames: Seq<Seq<u8>>, i: int)
    requires
        0 <= i < frames.len(),
    ensures
        sum_len(frames.take(i + 1)) == sum_len(frames.take(i)) + frames[i].len(),
{
    assert(frames.take(i + 1) =~= frames.take(i).push(frames[i]));
    lemma_sum_len_push(frames.take(i), frames[i]);
}

/// The bytes of a sequence of frames split across any cut point.
proof fn lemma_sum_len_split(frames: Seq<Seq<u8>>, j: int)
    requires
        0 <= j <= frames.len(),
    ensures
        sum_len(frames) == sum_len(frames.take(j)) + sum_len(frames.skip(j)),
    decreases j,
{
    if j == 0 {
        assert(frames.take(0) =~= Seq::<Seq<u8>>::empty());
        assert(frames.skip(0) =~= frames);
    } else {
        lemma_sum_len_split(frames, j - 1);
        lemma_sum_len_take_step(frames, j - 1);
        assert(frames.skip(j - 1).drop_first() =~= frames.skip(j));
        assert(frames.skip(j - 1).len() > 0 && frames.skip(j - 1)[0] == frames[j - 1]);
    }
}

/// Whether a purge for `tid` keeps this frame.
fn frame_keeps(f: &Vec<u8>, tid: &Vec<u8>) -> (r: bool)
    ensures
        r == keep_frame(f@, tid@),
{
    if f.len() == 0 {
        return false;
    }
    let id_len = f[0] as usize;
    if f.len() < 1 + id_len {
        return false;
    }
    let mut i: usize = 0;
    if id_len != tid.len() {
        proof {
            assert(embedded_id(f@).len() == id_len);
        }
        return true;
    }
    while i < id_len
        invariant
            0 <= i <= id_len,
            id_len == tid@.len(),
            f@.len() >= 1 + id_len,
            id_len == f@[0],
            forall|j: int| 0 <= j < i ==> f@[1 + j] == tid@[j],
        decreases id_len - i,
    {
        if f[1 + i] != tid[i] {
            proof {
                assert(embedded_id(f@)[i as int] == f@[1 + i as int]);
            }
            return true;
        }
        i = i + 1;
    }
    proof {
        assert(embedded_id(f@) =~= tid@);
    }
    false
}

/// A message bound for a browser: raw terminal bytes, or JSON control text.
#[derive(Debug, Clone)]
pub enum BrowserMessage {
    Binary(Vec<u8>),
    Text(String),
}

/// A message bound for the agent: raw input bytes, or JSON control text.
#[derive(Debug, Clone)]
pub enum MacMessage {
    Binary(Vec<u8>),
    Text(String),
}

/// One registered agent: its connected browsers and its scrollback.
pub struct Session {
    /// Ids of the browsers currently connected to this session.
    pub browsers: Vec<String>,
    /// Already-broadcast frames kept for replay, byte-capped.
    pub scrollback: Scrollback,
}

/// The observable content of one session, for contracts.
#[verifier::ext_equal]
pub struct SessionModel {
    pub browsers: Seq<Seq<char>>,
    pub frames: Seq<Seq<u8>>,
}

impl Session {
    pub open spec fn model(self) -> SessionModel {
        SessionModel {
            browsers: self.browsers@.map_values(|b: String| b@),
            frames: self.scrollback@,
        }
    }

    pub open spec fn wf(self) -> bool {
        self.scrollback.wf() && self.model().browsers.no_duplicates()
    }
}

/// Live sessions of the relay, keyed by session code.
pub struct AppState {
    sessions: Vec<(Vec<u8>, Session)>,
}

/// The code symbols: uppercase alphanumerics, with the glyphs 0, 1, I and
/// O left out as too easy to mistake for one another.
pub open spec fn is_code_symbol(b: u8) -> bool {
    (50 <= b <= 57) || (65 <= b <= 90 && b != 73 && b != 79)
}

/// The symbol for a 5-bit value: digits 2-9, then the letters except I, O.
pub open spec fn code_symbol(d: u8) -> u8
    recommends
        d < 32,
{
    if d < 8 {
        (50 + d) as u8  // '2' ..= '9'
    } else if d < 16 {
        (65 + (d - 8)) as u8  // 'A' ..= 'H'
    } else if d < 21 {
        (74 + (d - 16)) as u8  // 'J' ..= 'N'
    } else {
        (80 + (d - 21)) as u8  // 'P' ..= 'Z'
    }
}

/// The session code minted from one draw of entropy: six symbols, the
/// low five bits of the draw first.
pub open spec fn spec_mint_code(e: u64) -> Seq<u8> {
    Seq::new(6, |i: int| code_symbol(nth_symbol(e, i)))
}

/// The `i`-th 5-bit group of `e`, low groups first.
pub open spec fn nth_symbol(e: u64, i: int) -> u8 {
    ((e as nat / pow32(i)) % 32) as u8
}

/// `32^i`.
pub open spec fn pow32(i: int) -> nat
    decreases i,
{
    if i <= 0 {
        1
    } else {
        32 * pow32(i - 1)
    }
}

/// A well-formed session code: six to eight symbols from the code alphabet.
pub open spec fn code_wf(c: Seq<u8>) -> bool {
    6 <= c.len() <= 8 && forall|i: int| 0 <= i < c.len() ==> is_code_symbol(#[trigger] c[i])
}

/// Mint the candidate session code for one draw of entropy.
pub fn mint_code(entropy: u64) -> (r: Vec<u8>)
    ensures
        r@ == spec_mint_code(entropy),
        code_wf(r@),
{
    let mut r: Vec<u8> = Vec::new();
    let mut acc: u64 = entropy;
    let mut k: usize = 0;
    proof {
        assert(pow32(0) == 1);
        assert(entropy as nat / 1 == entropy as nat);
    }
    while k < 6
        invariant
            0 <= k <= 6,
            acc == entropy as nat / pow32(k as int),
            r@.len() == k,
            forall|i: int| 0 <= i < k ==> r@[i] == code_symbol(nth_symbol(entropy, i)),
        decreases 6 - k,
    {
        let d: u8 = (acc % 32) as u8;
        proof {
            assert(d == nth_symbol(entropy, k as int));
            lemma_pow32_step(entropy, k as int);
        }
        r.push(code_symbol_exec(d));
        acc = acc / 32;
        k = k + 1;
    }
    proof {
        assert(r@ =~= spec_mint_code(entropy));
        assert(forall|i: int| 0 <= i < 6 ==> is_code_symbol(#[trigger] spec_mint_code(entropy)[i]))
            by {
            assert forall|i: int| 0 <= i < 6 implies is_code_symbol(
                #[trigger] spec_mint_code(entropy)[i],
            ) by {
                assert(nth_symbol(entropy, i) < 32);
            }
        }
    }
    r
}

/// Dividing out one more 5-bit group.
proof fn lemma_pow32_step(e: u64, k: int)
    requires
        k >= 0,
    ensures
        (e as nat / pow32(k)) / 32 == e as nat / pow32(k + 1),
{
    let p = pow32(k);
    lemma_pow32_pos(k);
    vstd::arithmetic::div_mod::lemma_div_denominator(e as int, p as int, 32);
    assert(pow32(k + 1) == 32 * pow32(k));
    assert(p as int * 32 == pow32(k + 1));
}

proof fn lemma_pow32_pos(k: int)
    ensures
        pow32(k) >= 1,
    decreases k,
{
    if k > 0 {
        lemma_pow32_pos(k - 1);
    }
}

/// The symbol for a 5-bit value.
fn code_symbol_exec(d: u8) -> (r: u8)
    requires
        d < 32,
    ensures
        r == code_symbol(d),
        is_code_symbol(r),
{
    if d < 8 {
        50 + d
    } else if d < 16 {
        65 + (d - 8)
    } else if d < 21 {
        74 + (d - 16)
    } else {
        80 + (d - 21)
    }
}

impl AppState {
    /// Codes and contents of the live sessions, in registration order.
    pub closed spec fn model(self) -> Seq<(Seq<u8>, SessionModel)> {
        self.sessions@.map_values(|p: (Vec<u8>, Session)| (p.0@, p.1.model()))
    }

    /// The codes of the live sessions.
    pub open spec fn codes(self) -> Seq<Seq<u8>> {
        self.model().map_values(|p: (Seq<u8>, SessionModel)| p.0)
    }

    pub open spec fn has_code(self, c: Seq<u8>) -> bool {
        self.codes().contains(c)
    }

    /// Codes are unique across live sessions, and every session is well formed.
    pub closed spec fn wf(self) -> bool {
        &&& self.codes().no_duplicates()
        &&& forall|i: int|
            0 <= i < self.sessions@.len() ==> (#[trigger] self.sessions@[i].1).wf()
    }

    pub fn new() -> (r: AppState)
        ensures
            r.wf(),
            r.model() =~= Seq::<(Seq<u8>, SessionModel)>::empty(),
    {
        let r = AppState { sessions: Vec::new() };
        proof {
            assert(r.codes() =~= Seq::<Seq<u8>>::empty());
        }
        r
    }

    /// Index of the session registered under `code`, if any.
    fn find_index(&self, code: &Vec<u8>) -> (r: Option<usize>)
        ensures
            r is Some <==> self.has_code(code@),
            r matches Some(i) ==> 0 <= i < self.model().len() && self.model()[i as int].0
                == code@,
    {
        let n = self.sessions.len();
        let mut i: usize = 0;
        while i < n
            invariant
                n == self.sessions@.len(),
                0 <= i <= n,
                forall|j: int| 0 <= j < i ==> self.model()[j].0 != code@,
            decreases n - i,
        {
            if crate::wire::bytes_eq(&self.sessions[i].0, code) {
                proof {
                    assert(self.codes()[i as int] == code@);
                }
                return Some(i);
            }
            i = i + 1;
        }
        proof {
            assert(forall|j: int|
                0 <= j < self.codes().len() ==> #[trigger] self.codes()[j] != code@);
        }
        None
    }

    /// Mint a code from the caller's entropy and register a fresh session
    /// under it. `None` reports a collision with a live code: the caller
    /// draws fresh entropy and tries again.
    pub fn register_mac_client(&mut self, entropy: u64) -> (r: Option<Vec<u8>>)
        requires
            old(self).wf(),
        ensures
            final(self).wf(),
            match r {
                Some(code) => {
                    &&& code@ == spec_mint_code(entropy)
                    &&& code_wf(code@)
                    &&& !old(self).has_code(code@)
                    &&& final(self).model() == old(self).model().push(
                        (code@, SessionModel { browsers: seq![], frames: seq![] }),
                    )
                },
                None => {
                    &&& old(self).has_code(spec_mint_code(entropy))
                    &&& *final(self) == *old(self)
                },
            },
    {
        let code = mint_code(entropy);
        if self.find_index(&code).is_some() {
            return None;
        }
        let ghost before = self.model();
        let code_copy = copy_bytes(&code);
        self.sessions.push((code_copy, Session { browsers: Vec::new(), scrollback: Scrollback::new() }));
        proof {
            assert(self.model() =~~= before.push(
                (code@, SessionModel { browsers: seq![], frames: seq![] }),
            ));
            assert(self.codes() =~= old(self).codes().push(code@));
        }
        Some(code)
    }

    /// Whether `code` names a live session.
    pub fn validate_session_code(&self, code: &Vec<u8>) -> (r: bool)
        ensures
            r == self.has_code(code@),
    {
        self.find_index(code).is_some()
    }

    /// Drop the session registered under `code`, if any.
    pub fn remove_session(&mut self, code: &Vec<u8>)
        requires
            old(self).wf(),
        ensures
            final(self).wf(),
            !final(self).has_code(code@),
            !old(self).has_code(code@) ==> *final(self) == *old(self),
            old(self).has_code(code@) ==> exists|i: int|
                {
                    &&& 0 <= i < old(self).model().len()
                    &&& old(self).model()[i].0 == code@
                    &&& final(self).model() == old(self).model().remove(i)
                },
    {
        match self.find_index(code) {
            None => {
            }
            Some(i) => {
                let ghost before = self.model();
                let ghost ghost_i = i as int;
                self.sessions.remove(i);
                proof {
                    assert(self.model() =~~= before.remove(ghost_i));
                    assert(self.codes() =~= old(self).codes().remove(ghost_i));
                    assert(!self.has_code(code@)) by {
                        if self.has_code(code@) {
                            let j = choose|j: int|
                                0 <= j < self.codes().len() && self.codes()[j] == code@;
                            let j0 = if j < ghost_i {
                                j
                            } else {
                                j + 1
                            };
                            assert(old(self).codes()[j0] == code@);
                            assert(old(self).codes()[ghost_i] == code@);
                        }
                    }
                }
            }
        }
    }

    /// Number of live sessions.
    pub fn session_count(&self) -> (r: usize)
        ensures
            r == self.model().len(),
    {
        self.sessions.len()
    }

    /// Connect a browser to a session. A browser id already present is
    /// left as it is; an unknown code drops the request.
    pub fn add_browser(&mut self, code: &Vec<u8>, browser_id: String) -> (r: bool)
        requires
            old(self).wf(),
        ensures
            final(self).wf(),
            !old(self).has_code(code@) ==> *final(self) == *old(self) && !r,
            old(self).has_code(code@) ==> exists|i: int|
                {
                    &&& 0 <= i < old(self).model().len()
                    &&& old(self).model()[i].0 == code@
                    &&& final(self).model() == old(self).model().update(
                        i,
                        (
                            code@,
                            SessionModel {
                                browsers: if old(self).model()[i].1.browsers.contains(
                                    browser_id@,
                                ) {
                                    old(self).model()[i].1.browsers
                                } else {
                                    old(self).model()[i].1.browsers.push(browser_id@)
                                },
                                frames: old(self).model()[i].1.frames,
                            },
                        ),
                    )
                    &&& r == final(self).model()[i].1.browsers.contains(browser_id@)
                },
    {
        match self.find_index(code) {
            None => false,
            Some(i) => {
                let ghost before = self.model();
                let ghost ghost_i = i as int;
                let ghost bid = browser_id@;
                let mut pair = self.sessions.remove(i);
                let present = browser_index(&pair.1.browsers, &browser_id).is_some();
                let ghost bs_before = pair.1.browsers@.map_values(|b: String| b@);
                if !present {
                    pair.1.browsers.push(browser_id);
                    proof {
                        assert(pair.1.browsers@.map_values(|b: String| b@) =~= bs_before.push(
                            pair.1.browsers@.last()@,
                        ));
                    }
                }
                self.sessions.insert(i, pair);
                proof {
                    assert(bs_before == before[ghost_i].1.browsers);
                    assert(present == before[ghost_i].1.browsers.contains(bid));
                    if present {
                        assert(self.model() =~~= before.update(ghost_i, before[ghost_i]));
                        assert(before.update(ghost_i, before[ghost_i]) =~~= before);
                        assert(self.model()[ghost_i].1.browsers.contains(bid));
                    } else {
                        assert(self.model() =~~= before.update(
                            ghost_i,
                            (
                                code@,
                                SessionModel {
                                    browsers: before[ghost_i].1.browsers.push(bid),
                                    frames: before[ghost_i].1.frames,
                                },
                            ),
                        ));
                        assert(self.model()[ghost_i].1.browsers == bs_before.push(bid));
                        assert(self.model()[ghost_i].1.browsers.last() == bid);
                        assert(self.model()[ghost_i].1.browsers.contains(bid));
                    }
                    assert(self.codes() =~= old(self).codes());
                    lemma_no_duplicates_push_fresh(bs_before, bid, present);
                    assert({
                        &&& 0 <= ghost_i < old(self).model().len()
                        &&& old(self).model()[ghost_i].0 == code@
                        &&& self.model() == old(self).model().update(
                            ghost_i,
                            (
                                code@,
                                SessionModel {
                                    browsers: if old(self).model()[ghost_i].1.browsers.contains(
                                        bid,
                                    ) {
                                        old(self).model()[ghost_i].1.browsers
                                    } else {
                                        old(self).model()[ghost_i].1.browsers.push(bid)
                                    },
                                    frames: old(self).model()[ghost_i].1.frames,
                                },
                            ),
                        )
                        &&& true == self.model()[ghost_i].1.browsers.contains(bid)
                    });
                }
                true
            }
        }
    }

    /// Disconnect a browser from a session, if both are known.
    pub fn remove_browser(&mut self, code: &Vec<u8>, browser_id: &String)
        requires
            old(self).wf(),
        ensures
            final(self).wf(),
            !old(self).has_code(code@) ==> *final(self) == *old(self),
            old(self).has_code(code@) ==> exists|i: int|
                {
                    &&& 0 <= i < old(self).model().len()
                    &&& old(self).model()[i].0 == code@
                    &&& final(self).model() == old(self).model().update(
                        i,
                        (
                            code@,
                            SessionModel {
                                browsers: old(self).model()[i].1.browsers.remove_value(
                                    browser_id@,
                                ),
                                frames: old(self).model()[i].1.frames,
                            },
                        ),
                    )
                },
    {
        match self.find_index(code) {
            None => {
            }
            Some(i) => {
                let ghost before = self.model();
                let ghost ghost_i = i as int;
                let mut pair = self.sessions.remove(i);
                let ghost bs_before = pair.1.browsers@.map_values(|b: String| b@);
                match browser_index(&pair.1.browsers, browser_id) {
                    None => {
                        proof {
                            lemma_remove_value_absent(bs_before, browser_id@);
                        }
                    }
                    Some(j) => {
                        let ghost ghost_j = j as int;
                        pair.1.browsers.remove(j);
                        proof {
                            assert(pair.1.browsers@.map_values(|b: String| b@) =~= bs_before.remove(
                                ghost_j,
                            ));
                            lemma_remove_value_at(bs_before, browser_id@, ghost_j);
                            lemma_no_duplicates_remove(bs_before, ghost_j);
                        }
                    }
                }
                self.sessions.insert(i, pair);
                proof {
                    assert(self.model() =~~= before.update(
                        ghost_i,
                        (
                            code@,
                            SessionModel {
                                browsers: before[ghost_i].1.browsers.remove_value(browser_id@),
                                frames: before[ghost_i].1.frames,
                            },
                        ),
                    ));
                    assert(self.codes() =~= old(self).codes());
                }
            }
        }
    }

    /// Append a broadcast frame to the session's scrollback, evicting the
    /// oldest frames past the cap, and name the browsers to deliver it to,
    /// in connection order. An unknown code drops the frame.
    pub fn broadcast_to_browsers(&mut self, code: &Vec<u8>, data: Vec<u8>) -> (targets: Vec<
        String,
    >)
        requires
            old(self).wf(),
            data@.len() <= usize::MAX - MAX_SCROLLBACK,
        ensures
            final(self).wf(),
            !old(self).has_code(code@) ==> *final(self) == *old(self) && targets@.len() == 0,
            old(self).has_code(code@) ==> exists|i: int|
                {
                    &&& 0 <= i < old(self).model().len()
                    &&& old(self).model()[i].0 == code@
                    &&& final(self).model() == old(self).model().update(
                        i,
                        (
                            code@,
                            SessionModel {
                                browsers: old(self).model()[i].1.browsers,
                                frames: evict(old(self).model()[i].1.frames.push(data@)),
                            },
                        ),
                    )
                    &&& targets@.map_values(|b: String| b@) == old(self).model()[i].1.browsers
                },
    {
        match self.find_index(code) {
            None => Vec::new(),
            Some(i) => {
                let ghost before = self.model();
                let ghost ghost_i = i as int;
                let mut pair = self.sessions.remove(i);
                pair.1.scrollback.push_frame(data);
                let targets = clone_strings(&pair.1.browsers);
                self.sessions.insert(i, pair);
                proof {
                    assert(self.model() =~~= before.update(
                        ghost_i,
                        (
                            code@,
                            SessionModel {
                                browsers: before[ghost_i].1.browsers,
                                frames: evict(before[ghost_i].1.frames.push(data@)),
                            },
                        ),
                    ));
                    assert(self.codes() =~= old(self).codes());
                }
                targets
            }
        }
    }

    /// Purge from the session's scrollback every frame whose embedded
    /// terminal session id is `tid`.
    pub fn purge_session_scrollback(&mut self, code: &Vec<u8>, tid: &Vec<u8>)
        requires
            old(self).wf(),
        ensures
            final(self).wf(),
            !old(self).has_code(code@) ==> *final(self) == *old(self),
            old(self).has_code(code@) ==> exists|i: int|
                {
                    &&& 0 <= i < old(self).model().len()
                    &&& old(self).model()[i].0 == code@
                    &&& final(self).model() == old(self).model().update(
                        i,
                        (
                            code@,
                            SessionModel {
                                browsers: old(self).model()[i].1.browsers,
                                frames: old(self).model()[i].1.frames.filter(
                                    |f: Seq<u8>| keep_frame(f, tid@),
                                ),
                            },
                        ),
                    )
                },
    {
        match self.find_index(code) {
            None => {
            }
            Some(i) => {
                let ghost before = self.model();
                let ghost ghost_i = i as int;
                let mut pair = self.sessions.remove(i);
                pair.1.scrollback.purge(tid);
                self.sessions.insert(i, pair);
                proof {
                    assert(self.model() =~~= before.update(
                        ghost_i,
                        (
                            code@,
                            SessionModel {
                                browsers: before[ghost_i].1.browsers,
                                frames: before[ghost_i].1.frames.filter(
                                    |f: Seq<u8>| keep_frame(f, tid@),
                                ),
                            },
                        ),
                    ));
                    assert(self.codes() =~= old(self).codes());
                }
            }
        }
    }

    /// Snapshot of the session's scrollback for replay to a new browser,
    /// oldest first; empty for an unknown code.
    pub fn get_scrollback(&self, code: &Vec<u8>) -> (r: Vec<Vec<u8>>)
        ensures
            !self.has_code(code@) ==> r@.len() == 0,
            self.has_code(code@) ==> exists|i: int|
                {
                    &&& 0 <= i < self.model().len()
                    &&& self.model()[i].0 == code@
                    &&& r@.map_values(|f: Vec<u8>| f@) == self.model()[i].1.frames
                },
    {
        match self.find_index(code) {
            None => Vec::new(),
            Some(i) => self.sessions[i].1.scrollback.snapshot(),
        }
    }

    /// Name the browsers of a session for a text broadcast, in connection
    /// order. Text is never added to scrollback.
    pub fn broadcast_text_to_browsers(&self, code: &Vec<u8>) -> (targets: Vec<String>)
        ensures
            !self.has_code(code@) ==> targets@.len() == 0,
            self.has_code(code@) ==> exists|i: int|
                {
                    &&& 0 <= i < self.model().len()
                    &&& self.model()[i].0 == code@
                    &&& targets@.map_values(|b: String| b@) == self.model()[i].1.browsers
                },
    {
        match self.find_index(code) {
            None => Vec::new(),
            Some(i) => clone_strings(&self.sessions[i].1.browsers),
        }
    }

    /// Wrap keyboard input for the agent of a session; `None` for an
    /// unknown code.
    pub fn send_to_mac_client(&self, code: &Vec<u8>, data: Vec<u8>) -> (r: Option<MacMessage>)
        ensures
            !self.has_code(code@) ==> r is None,
            self.has_code(code@) ==> (r matches Some(MacMessage::Binary(d)) && d == data),
    {
        match self.find_index(code) {
            None => None,
            Some(_) => Some(MacMessage::Binary(data)),
        }
    }

    /// Wrap a JSON control text for the agent of a session; `None` for an
    /// unknown code.
    pub fn send_text_to_mac_client(&self, code: &Vec<u8>, text: String) -> (r: Option<MacMessage>)
        ensures
            !self.has_code(code@) ==> r is None,
            self.has_code(code@) ==> (r matches Some(MacMessage::Text(t)) && t == text),
    {
        match self.find_index(code) {
            None => None,
            Some(_) => Some(MacMessage::Text(text)),
        }
    }
}

impl Default for AppState {
    /// An empty relay state.
    fn default() -> (r: AppState)
        ensures
            r.wf(),
            r.model() =~= Seq::<(Seq<u8>, SessionModel)>::empty(),
    {
        AppState::new()
    }
}

/// Session codes are unique across live sessions: two distinct live
/// sessions never share a code.
pub proof fn lemma_codes_unique(s: AppState, i: int, j: int)
    requires
        s.wf(),
        0 <= i < s.model().len(),
        0 <= j < s.model().len(),
        i != j,
    ensures
        s.model()[i].0 != s.model()[j].0,
{
    assert(s.codes()[i] == s.model()[i].0);
    assert(s.codes()[j] == s.model()[j].0);
}

/// The byte cap holds of every live session's scrollback at all times.
pub proof fn lemma_scrollback_cap(s: AppState, i: int)
    requires
        s.wf(),
        0 <= i < s.model().len(),
    ensures
        sum_len(s.model()[i].1.frames) <= MAX_SCROLLBACK,
{
}

/// After a purge, no frame with the purged terminal session id remains.
pub proof fn lemma_purge_complete(frames: Seq<Seq<u8>>, tid: Seq<u8>, k: int)
    requires
        0 <= k < frames.filter(|f: Seq<u8>| keep_frame(f, tid)).len(),
    ensures
        frame_ok(frames.filter(|f: Seq<u8>| keep_frame(f, tid))[k]),
        embedded_id(frames.filter(|f: Seq<u8>| keep_frame(f, tid))[k]) != tid,
{
    frames.lemma_filter_pred(|f: Seq<u8>| keep_frame(f, tid), k);
}

proof fn lemma_no_duplicates_push_fresh(s: Seq<Seq<char>>, x: Seq<char>, present: bool)
    requires
        s.no_duplicates(),
        present == s.contains(x),
    ensures
        !present ==> s.push(x).no_duplicates(),
{
    if !present {
        assert forall|i: int, j: int|
            0 <= i < s.push(x).len() && 0 <= j < s.push(x).len() && i != j implies s.push(x)[i]
            != s.push(x)[j] by {
            if i < s.len() && j < s.len() {
            } else if i < s.len() {
                assert(!s.contains(x));
                assert(s[i] == s.push(x)[i]);
            } else {
                assert(s[j] == s.push(x)[j]);
            }
        }
    }
}

proof fn lemma_no_duplicates_remove(s: Seq<Seq<char>>, j: int)
    requires
        s.no_duplicates(),
        0 <= j < s.len(),
    ensures
        s.remove(j).no_duplicates(),
{
    let t = s.remove(j);
    assert forall|a: int, b: int| 0 <= a < t.len() && 0 <= b < t.len() && a != b implies t[a]
        != t[b] by {
        let a0 = if a < j {
            a
        } else {
            a + 1
        };
        let b0 = if b < j {
            b
        } else {
            b + 1
        };
        assert(t[a] == s[a0] && t[b] == s[b0]);
    }
}

proof fn lemma_remove_value_absent(s: Seq<Seq<char>>, x: Seq<char>)
    requires
        !s.contains(x),
    ensures
        s.remove_value(x) == s,
{
    s.index_of_first_ensures(x);
    match s.index_of_first(x) {
        Some(i) => {
            assert(s[i] == x);
        },
        None => {
        },
    }
}

proof fn lemma_remove_value_at(s: Seq<Seq<char>>, x: Seq<char>, j: int)
    requires
        s.no_duplicates(),
        0 <= j < s.len(),
        s[j] == x,
    ensures
        s.remove_value(x) == s.remove(j),
{
    let fi = s.index_of_first(x);
    s.index_of_first_ensures(x);
    match fi {
        Some(i) => {
            if i != j {
                assert(s[i] == s[j]);
            }
        },
        None => {
            assert(s.contains(x));
        },
    }
}

/// Clone of a list of ids, in order.
fn clone_strings(v: &Vec<String>) -> (r: Vec<String>)
    ensures
        r@.map_values(|b: String| b@) == v@.map_values(|b: String| b@),
{
    let mut r: Vec<String> = Vec::new();
    let mut i: usize = 0;
    let n = v.len();
    while i < n
        invariant
            n == v@.len(),
            0 <= i <= n,
            r@.map_values(|b: String| b@) =~= v@.map_values(|b: String| b@).take(i as int),
        decreases n - i,
    {
        let ghost before = r@.map_values(|b: String| b@);
        r.push(v[i].clone());
        proof {
            assert(r@.map_values(|b: String| b@) =~= before.push(v@[i as int]@));
            assert(v@.map_values(|b: String| b@).take(i + 1) =~= before.push(v@[i as int]@));
        }
        i = i + 1;
    }
    proof {
        assert(v@.map_values(|b: String| b@).take(n as int) =~= v@.map_values(|b: String| b@));
    }
    r
}

/// Index of a browser id in the list, if present.
fn browser_index(v: &Vec<String>, id: &String) -> (r: Option<usize>)
    ensures
        match r {
            Some(i) => 0 <= i < v@.len() && v@[i as int]@ == id@ && v@.map_values(
                |b: String| b@,
            ).contains(id@),
            None => !v@.map_values(|b: String| b@).contains(id@),
        },
{
    let n = v.len();
    let mut i: usize = 0;
    while i < n
        invariant
            n == v@.len(),
            0 <= i <= n,
            forall|j: int| 0 <= j < i ==> v@[j]@ != id@,
        decreases n - i,
    {
        if v[i].eq(id) {
            proof {
                assert(v@.map_values(|b: String| b@)[i as int] == id@);
            }
            return Some(i);
        }
        i = i + 1;
    }
    proof {
        let ghost ids = v@.map_values(|b: String| b@);
        assert(forall|j: int| 0 <= j < ids.len() ==> #[trigger] ids[j] != id@);
    }
    None
}

/// Byte-for-byte copy of a frame.
pub fn copy_bytes(v: &Vec<u8>) -> (r: Vec<u8>)
    ensures
        r@ == v@,
{
    let mut r: Vec<u8> = Vec::new();
    let mut i: usize = 0;
    let n = v.len();
    while i < n
        invariant
            n == v@.len(),
            0 <= i <= n,
            r@ =~= v@.take(i as int),
        decreases n - i,
    {
        r.push(v[i]);
        proof {
            assert(r@ =~= v@.take(i + 1));
        }
        i = i + 1;
    }
    proof {
        assert(v@.take(n as int) =~= v@);
    }
    r
}

} // verus!
