//! Progress indicators: a bar that follows a value up to a maximum, and a
//! spinner with a message.
//!
//! The state and its updates live here; drawing them on a terminal, and the
//! ticking and rate estimates that depend on the clock, belong to the caller.

use vstd::prelude::*;
use crate::text::{chars_of, push_char, push_chars, slice_chars, string_from};
use crate::errtypes::{trim, trim_chars};

verus! {

broadcast use vstd::string::group_string_axioms;

/// `std::time::Instant`.
#[verifier::external_type_specification]
#[verifier::external_body]
pub struct ExInstant(std::time::Instant);

/// `Instant::now`: the current instant; nothing is known of it.
#[verifier::external_body]
fn instant_now() -> std::time::Instant {
    std::time::Instant::now()
}

/// `Instant::elapsed`: the time passed since `t`, as whole seconds and
/// the nanoseconds beyond them (fewer than a second, as `Duration`
/// documents).  It depends on the clock, so nothing more is stated.
#[verifier::external_body]
fn elapsed_since(t: &std::time::Instant) -> (r: (u64, u32))
    ensures
        r.1 < 1_000_000_000,
{
    let d = t.elapsed();
    (d.as_secs(), d.subsec_nanos())
}

/// Whether a time of `secs` seconds and `nanos` nanoseconds is more than
/// a second.
pub fn longer_than_a_second(secs: u64, nanos: u32) -> (r: bool)
    requires
        nanos < 1_000_000_000,
    ensures
        r == (secs * 1_000_000_000 + nanos > 1_000_000_000),
{
    secs > 1 || (secs == 1 && nanos > 0)
}

/// Whether more than a second has passed since `t`.
fn more_than_a_second_since(t: &std::time::Instant) -> bool {
    let (secs, nanos) = elapsed_since(t);
    longer_than_a_second(secs, nanos)
}

/// The most samples a bar keeps to estimate its rate.
pub const MAX_BUCKETS: usize = 10;

/// A sample of a bar's value and when it was taken.
pub struct Bucket {
    pub updated: std::time::Instant,
    pub value: i64,
}

/// A progress bar: a value that moves towards a maximum, with the samples
/// its rate is estimated from.
pub struct Bar {
    message: String,
    message_width: isize,
    max_value: i64,
    initial_value: i64,
    current_value: i64,
    started: std::time::Instant,
    stopped: Option<std::time::Instant>,
    buckets: Vec<Bucket>,
    max_buckets: usize,
}

/// The values of a bar's samples, oldest first.
pub open spec fn bucket_values(b: Seq<Bucket>) -> Seq<i64> {
    b.map_values(|x: Bucket| x.value)
}

/// A new sample `v` added after `s`; the oldest one goes when there are
/// more than `MAX_BUCKETS`.
pub open spec fn push_sample(s: Seq<i64>, v: i64) -> Seq<i64> {
    let t = s.push(v);
    if t.len() > MAX_BUCKETS {
        t.drop_first()
    } else {
        t
    }
}

pub open spec fn min_i64(a: i64, b: i64) -> i64 {
    if a <= b {
        a
    } else {
        b
    }
}

impl Bar {
    /// The bar keeps at most `MAX_BUCKETS` samples (its type invariant).
    #[verifier::type_invariant]
    pub closed spec fn wf(&self) -> bool {
        self.max_buckets == MAX_BUCKETS && self.buckets@.len() <= MAX_BUCKETS
    }

    pub closed spec fn spec_message(&self) -> Seq<char> {
        self.message@
    }

    pub closed spec fn spec_message_width(&self) -> isize {
        self.message_width
    }

    pub closed spec fn spec_max(&self) -> i64 {
        self.max_value
    }

    pub closed spec fn spec_initial(&self) -> i64 {
        self.initial_value
    }

    pub closed spec fn spec_current(&self) -> i64 {
        self.current_value
    }

    /// When the bar was made.
    pub closed spec fn spec_started(&self) -> std::time::Instant {
        self.started
    }

    pub closed spec fn spec_stopped(&self) -> Option<std::time::Instant> {
        self.stopped
    }

    pub closed spec fn spec_samples(&self) -> Seq<i64> {
        bucket_values(self.buckets@)
    }

    pub closed spec fn spec_buckets(&self) -> Seq<Bucket> {
        self.buckets@
    }

    /// A bar at `initial_value` of `max_value`; it is stopped at once when
    /// it starts at or past the maximum.
    pub fn new(message: String, max_value: i64, initial_value: i64) -> (b: Self)
        ensures
            b.wf(),
            b.spec_message() == message@,
            b.spec_message_width() == -1,
            b.spec_max() == max_value,
            b.spec_initial() == initial_value,
            b.spec_current() == initial_value,
            b.spec_stopped().is_some() == (initial_value >= max_value),
            b.spec_samples().len() == 0,
    {
        let started = instant_now();
        let stopped = if initial_value >= max_value {
            Some(instant_now())
        } else {
            None
        };
        Bar {
            message,
            message_width: -1,
            max_value,
            initial_value,
            current_value: initial_value,
            started,
            stopped,
            buckets: Vec::new(),
            max_buckets: MAX_BUCKETS,
        }
    }

    /// Moves the bar to `value`, capped at the maximum.  Reaching the
    /// maximum stops the bar, and a stopped bar keeps its stop time.  A
    /// sample is taken when there is none yet or the last one is more than a
    /// second old; the oldest sample goes when there are too many.
    pub fn set(&mut self, value: i64)
        ensures
            final(self).wf(),
            final(self).spec_current() == min_i64(value, old(self).spec_max()),
            final(self).spec_message() == old(self).spec_message(),
            final(self).spec_message_width() == old(self).spec_message_width(),
            final(self).spec_max() == old(self).spec_max(),
            final(self).spec_initial() == old(self).spec_initial(),
            final(self).spec_stopped().is_some() == (old(self).spec_stopped().is_some() || min_i64(
                value,
                old(self).spec_max(),
            ) >= old(self).spec_max()),
            old(self).spec_stopped().is_some() ==> final(self).spec_stopped() == old(
                self,
            ).spec_stopped(),
            final(self).spec_samples() == push_sample(
                old(self).spec_samples(),
                min_i64(value, old(self).spec_max()),
            ) || (old(self).spec_samples().len() > 0 && final(self).spec_buckets() == old(
                self,
            ).spec_buckets()),
    {
        proof {
            use_type_invariant(&*self);
        }
        let value = if value <= self.max_value {
            value
        } else {
            self.max_value
        };
        self.current_value = value;
        if self.current_value >= self.max_value {
            if self.stopped.is_none() {
                self.stopped = Some(instant_now());
            }
        }
        let take = if self.buckets.len() == 0 {
            true
        } else {
            let last = self.buckets.len() - 1;
            more_than_a_second_since(&self.buckets[last].updated)
        };
        if take {
            let mut buckets: Vec<Bucket> = Vec::new();
            std::mem::swap(&mut buckets, &mut self.buckets);
            let ghost before = buckets@;
            buckets.push(Bucket { updated: instant_now(), value });
            assert(bucket_values(buckets@) =~= bucket_values(before).push(value));
            if buckets.len() > self.max_buckets {
                let ghost full = buckets@;
                buckets.remove(0);
                assert(buckets@ =~= full.drop_first());
                assert(bucket_values(buckets@) =~= bucket_values(full).drop_first());
            }
            self.buckets = buckets;
        }
    }

    /// The bar's message.
    pub fn message(&self) -> (m: &String)
        ensures
            m@ == self.spec_message(),
    {
        &self.message
    }

    /// The width the message is padded or cut to; not positive for none.
    pub fn message_width(&self) -> (w: isize)
        ensures
            w == self.spec_message_width(),
    {
        self.message_width
    }

    /// The value the bar moves towards.
    pub fn max_value(&self) -> (v: i64)
        ensures
            v == self.spec_max(),
    {
        self.max_value
    }

    /// The value the bar started at.
    pub fn initial_value(&self) -> (v: i64)
        ensures
            v == self.spec_initial(),
    {
        self.initial_value
    }

    /// The bar's value.
    pub fn current_value(&self) -> (v: i64)
        ensures
            v == self.spec_current(),
    {
        self.current_value
    }

    /// When the bar was made.
    pub fn started(&self) -> (s: &std::time::Instant)
        ensures
            *s == self.spec_started(),
    {
        &self.started
    }

    /// When the bar reached its maximum, if it did.
    pub fn stopped(&self) -> (s: Option<std::time::Instant>)
        ensures
            s == self.spec_stopped(),
    {
        self.stopped
    }

    /// The samples, oldest first.
    pub fn buckets(&self) -> (b: &Vec<Bucket>)
        ensures
            b@ == self.spec_buckets(),
    {
        &self.buckets
    }
}

// ---------------------------------------------------------------------------
// Durations
// ---------------------------------------------------------------------------

/// A remaining time in whole seconds, as the bar shows it: seconds below an
/// hour, hours and minutes below a hundred hours, `99h+` beyond.
pub open spec fn spec_format_duration(secs: nat) -> Seq<char> {
    if secs >= 360000 {
        seq!['9', '9', 'h', '+']
    } else if secs >= 3600 {
        crate::text::decimal(secs / 3600) + seq!['h'] + crate::text::decimal((secs / 60) % 60)
            + seq!['m']
    } else {
        crate::text::decimal(secs) + seq!['s']
    }
}

/// A remaining time in whole seconds, as the bar shows it.
pub fn format_duration(secs: u64) -> (s: String)
    ensures
        s@ == spec_format_duration(secs as nat),
{
    let mut out = String::new();
    if secs >= 360000 {
        push_char(&mut out, '9');
        push_char(&mut out, '9');
        push_char(&mut out, 'h');
        push_char(&mut out, '+');
        assert(out@ =~= seq!['9', '9', 'h', '+']);
    } else if secs >= 3600 {
        push_chars(&mut out, &crate::text::decimal_chars(secs / 3600));
        push_char(&mut out, 'h');
        push_chars(&mut out, &crate::text::decimal_chars((secs / 60) % 60));
        push_char(&mut out, 'm');
    } else {
        push_chars(&mut out, &crate::text::decimal_chars(secs));
        push_char(&mut out, 's');
    }
    out
}

// ---------------------------------------------------------------------------
// Messages cut or padded to a width
// ---------------------------------------------------------------------------

/// The number of bytes that `c` takes in UTF-8.
pub open spec fn utf8_len(c: char) -> nat {
    let u = c as u32;
    if u < 0x80 {
        1
    } else if u < 0x800 {
        2
    } else if u < 0x10000 {
        3
    } else {
        4
    }
}

/// The number of bytes that `s` takes in UTF-8.
pub open spec fn byte_len(s: Seq<char>) -> nat
    decreases s.len(),
{
    if s.len() == 0 {
        0
    } else {
        byte_len(s.drop_last()) + utf8_len(s.last())
    }
}

/// How many characters of `s` fit, whole, in `w` bytes.
pub open spec fn prefix_chars(s: Seq<char>, w: int) -> nat
    decreases s.len(),
{
    if s.len() == 0 || utf8_len(s[0]) > w {
        0
    } else {
        1 + prefix_chars(s.drop_first(), w - utf8_len(s[0]))
    }
}

/// `n` spaces.
pub open spec fn spaces(n: nat) -> Seq<char> {
    Seq::new(n, |i: int| ' ')
}

/// A message as an indicator shows it: trimmed, cut to `width` bytes when
/// it is longer, padded with spaces to `width` bytes, then a space; nothing
/// for an empty message.  A width that is not positive sets no width.
pub open spec fn spec_message_part(message: Seq<char>, width: isize) -> Seq<char> {
    if message.len() == 0 {
        Seq::empty()
    } else {
        let m = trim(message);
        let m2 = if width > 0 && byte_len(m) > width {
            m.take(prefix_chars(m, width as int) as int)
        } else {
            m
        };
        let pad: nat = if width > 0 && byte_len(m2) <= width {
            (width - byte_len(m2)) as nat
        } else {
            0
        };
        m2 + spaces(pad) + seq![' ']
    }
}

/// A message longer than its width is cut between two characters: the
/// width falls on a character boundary of the trimmed message.
pub open spec fn cut_on_boundary(message: Seq<char>, width: isize) -> bool {
    let m = trim(message);
    message.len() == 0 || !(width > 0 && byte_len(m) > width) || byte_len(
        m.take(prefix_chars(m, width as int) as int),
    ) == width
}

proof fn lemma_byte_len_prefix(s: Seq<char>, k: int)
    requires
        0 <= k <= s.len(),
    ensures
        byte_len(s.take(k)) <= byte_len(s),
    decreases s.len(),
{
    if k < s.len() {
        assert(s.drop_last().take(k) =~= s.take(k));
        lemma_byte_len_prefix(s.drop_last(), k);
    } else {
        assert(s.take(k) =~= s);
    }
}

fn utf8_len_exec(c: char) -> (n: usize)
    ensures
        n == utf8_len(c),
{
    let u = c as u32;
    if u < 0x80 {
        1
    } else if u < 0x800 {
        2
    } else if u < 0x10000 {
        3
    } else {
        4
    }
}

/// How many characters of `m` fit in `w` bytes, and whether `m` takes
/// more than `w` bytes.
fn fit_to_width(m: &[char], w: usize) -> (r: (usize, usize, bool))
    ensures
        r.0 == prefix_chars(m@, w as int),
        r.0 <= m@.len(),
        r.1 == byte_len(m@.take(r.0 as int)),
        r.2 == (byte_len(m@) > w),
{
    let n = m.len();
    let mut i: usize = 0;
    let mut acc: usize = 0;
    assert(m@.take(0) =~= Seq::<char>::empty());
    assert(m@.skip(0) =~= m@);
    while i < n && utf8_len_exec(m[i]) <= w - acc
        invariant
            n == m@.len(),
            i <= n,
            acc <= w,
            acc == byte_len(m@.take(i as int)),
            prefix_chars(m@, w as int) == i + prefix_chars(m@.skip(i as int), w - acc),
        decreases n - i,
    {
        assert(m@.skip(i as int).drop_first() =~= m@.skip(i + 1));
        assert(m@.skip(i as int)[0] == m@[i as int]);
        assert(m@.take(i + 1).drop_last() =~= m@.take(i as int));
        acc = acc + utf8_len_exec(m[i]);
        i += 1;
    }
    if i < n {
        assert(m@.skip(i as int)[0] == m@[i as int]);
        assert(m@.take(i + 1).drop_last() =~= m@.take(i as int));
        proof {
            lemma_byte_len_prefix(m@, i + 1);
        }
        (i, acc, true)
    } else {
        assert(m@.take(i as int) =~= m@);
        (i, acc, false)
    }
}

/// A message as an indicator shows it.
fn message_part(message: &String, width: isize) -> (s: Vec<char>)
    requires
        cut_on_boundary(message@, width),
    ensures
        s@ == spec_message_part(message@, width),
{
    let cs = chars_of(message.as_str());
    if cs.len() == 0 {
        return Vec::new();
    }
    let m = trim_chars(&cs);
    let mut out: Vec<char>;
    let mut used: usize;
    if width > 0 {
        let w = width as usize;
        let (k, bytes, over) = fit_to_width(&m, w);
        if over {
            out = slice_chars(&m, 0, k);
            used = bytes;
            assert(out@ =~= m@.take(k as int));
        } else {
            out = slice_chars(&m, 0, m.len());
            assert(out@ =~= m@);
            assert(m@.take(k as int) =~= m@) by {
                crate::progress::lemma_prefix_all(m@, w as int);
            }
            used = bytes;
        }
        let ghost m2 = out@;
        let pad = w - used;
        let mut j: usize = 0;
        while j < pad
            invariant
                j <= pad,
                out@ == m2 + spaces(j as nat),
            decreases pad - j,
        {
            out.push(' ');
            assert(spaces((j + 1) as nat) =~= spaces(j as nat).push(' '));
            j += 1;
        }
    } else {
        out = m;
        assert(out@ + spaces(0) =~= out@);
    }
    let ghost body = out@;
    out.push(' ');
    assert(out@ =~= body + seq![' ']);
    out
}

proof fn lemma_prefix_all(s: Seq<char>, w: int)
    requires
        byte_len(s) <= w,
    ensures
        prefix_chars(s, w) == s.len(),
    decreases s.len(),
{
    if s.len() > 0 {
        lemma_byte_len_front(s);
        lemma_prefix_all(s.drop_first(), w - utf8_len(s[0]));
    }
}

proof fn lemma_byte_len_front(s: Seq<char>)
    requires
        s.len() > 0,
    ensures
        byte_len(s) == utf8_len(s[0]) + byte_len(s.drop_first()),
    decreases s.len(),
{
    if s.len() > 1 {
        lemma_byte_len_front(s.drop_last());
        assert(s.drop_last().drop_first() =~= s.drop_first().drop_last());
    } else {
        assert(s.drop_first() =~= Seq::<char>::empty());
        assert(s.drop_last() =~= Seq::<char>::empty());
    }
}

// ---------------------------------------------------------------------------
// The spinner
// ---------------------------------------------------------------------------

/// The spinner's frames, in order.
pub open spec fn spinner_frame(i: nat) -> char {
    if i == 0 {
        '\u{280b}'
    } else if i == 1 {
        '\u{2819}'
    } else if i == 2 {
        '\u{2839}'
    } else if i == 3 {
        '\u{2838}'
    } else if i == 4 {
        '\u{283c}'
    } else if i == 5 {
        '\u{2834}'
    } else if i == 6 {
        '\u{2826}'
    } else if i == 7 {
        '\u{2827}'
    } else if i == 8 {
        '\u{2807}'
    } else {
        '\u{280f}'
    }
}

/// The number of frames.
pub const SPINNER_FRAMES: usize = 10;

/// A spinner: a message, and a frame that advances while it runs.
pub struct Spinner {
    message: String,
    pub message_width: isize,
    value: usize,
    stopped: bool,
}

/// What a spinner shows: its message, then its frame and a space while it
/// runs.
pub open spec fn spec_spinner_text(message: Seq<char>, width: isize, frame: nat, stopped: bool) -> Seq<
    char,
> {
    spec_message_part(message, width) + if stopped {
        Seq::empty()
    } else {
        seq![spinner_frame(frame), ' ']
    }
}

fn frame_char(i: usize) -> (c: char)
    requires
        i < SPINNER_FRAMES,
    ensures
        c == spinner_frame(i as nat),
{
    if i == 0 {
        '\u{280b}'
    } else if i == 1 {
        '\u{2819}'
    } else if i == 2 {
        '\u{2839}'
    } else if i == 3 {
        '\u{2838}'
    } else if i == 4 {
        '\u{283c}'
    } else if i == 5 {
        '\u{2834}'
    } else if i == 6 {
        '\u{2826}'
    } else if i == 7 {
        '\u{2827}'
    } else if i == 8 {
        '\u{2807}'
    } else {
        '\u{280f}'
    }
}

impl Spinner {
    pub closed spec fn spec_message(&self) -> Seq<char> {
        self.message@
    }

    pub closed spec fn spec_width(&self) -> isize {
        self.message_width
    }

    /// The frame shown next: the counter taken modulo the number of frames.
    pub closed spec fn spec_frame(&self) -> nat {
        (self.value % SPINNER_FRAMES) as nat
    }

    pub closed spec fn spec_stopped(&self) -> bool {
        self.stopped
    }

    /// A running spinner at its first frame, with no message width.
    pub fn new(message: String) -> (s: Self)
        ensures
            s.spec_message() == message@,
            s.spec_width() == -1,
            s.spec_frame() == 0,
            !s.spec_stopped(),
    {
        Spinner { message, message_width: -1, value: 0, stopped: false }
    }

    /// Replaces the message.
    pub fn set_message(&mut self, message: String)
        ensures
            final(self).spec_message() == message@,
            final(self).spec_width() == old(self).spec_width(),
            final(self).spec_frame() == old(self).spec_frame(),
            final(self).spec_stopped() == old(self).spec_stopped(),
    {
        self.message = message;
    }

    /// Advances a running spinner to its next frame, after the last comes
    /// the first; a stopped spinner stays as it is.
    pub fn tick(&mut self)
        ensures
            final(self).spec_message() == old(self).spec_message(),
            final(self).spec_width() == old(self).spec_width(),
            final(self).spec_stopped() == old(self).spec_stopped(),
            final(self).spec_frame() == if old(self).spec_stopped() {
                old(self).spec_frame()
            } else {
                (old(self).spec_frame() + 1) % (SPINNER_FRAMES as nat)
            },
    {
        if !self.stopped {
            self.value = (self.value % SPINNER_FRAMES + 1) % SPINNER_FRAMES;
        }
    }

    /// Stops the spinner; stopping twice is stopping once.
    pub fn stop(&mut self)
        ensures
            final(self).spec_stopped(),
            final(self).spec_message() == old(self).spec_message(),
            final(self).spec_width() == old(self).spec_width(),
            final(self).spec_frame() == old(self).spec_frame(),
    {
        self.stopped = true;
    }

    /// Whether the message can be shown at its width: a message longer
    /// than the width must be cut between two characters.
    pub fn can_render(&self) -> (r: bool)
        ensures
            r == cut_on_boundary(self.spec_message(), self.spec_width()),
    {
        let cs = chars_of(self.message.as_str());
        if cs.len() == 0 || self.message_width <= 0 {
            return true;
        }
        let m = trim_chars(&cs);
        let (_, bytes, over) = fit_to_width(&m, self.message_width as usize);
        !over || bytes == self.message_width as usize
    }

    /// What the spinner shows.
    pub fn to_string(&self) -> (s: String)
        requires
            cut_on_boundary(self.spec_message(), self.spec_width()),
        ensures
            s@ == spec_spinner_text(
                self.spec_message(),
                self.spec_width(),
                self.spec_frame(),
                self.spec_stopped(),
            ),
    {
        let mut out = message_part(&self.message, self.message_width);
        let ghost body = out@;
        if !self.stopped {
            out.push(frame_char(self.value % SPINNER_FRAMES));
            out.push(' ');
            assert(out@ =~= body + seq![spinner_frame((self.value % SPINNER_FRAMES) as nat), ' ']);
        } else {
            assert(out@ =~= body + Seq::<char>::empty());
        }
        string_from(&out)
    }
}

// ---------------------------------------------------------------------------
// Laws
// ---------------------------------------------------------------------------

/// A bar never holds more than `MAX_BUCKETS` samples (every bar meets
/// `wf`, its type invariant).
pub proof fn law_bar_samples_bounded(b: &Bar)
    requires
        b.wf(),
    ensures
        b.spec_samples().len() <= MAX_BUCKETS,
{
}

/// A stopped spinner shows its message and no frame.
pub proof fn law_stopped_spinner_shows_no_frame(message: Seq<char>, width: isize, frame: nat)
    ensures
        spec_spinner_text(message, width, frame, true) == spec_message_part(message, width),
{
    assert(spec_spinner_text(message, width, frame, true) =~= spec_message_part(message, width));
}

} // verus!
