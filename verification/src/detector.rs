//! The clipboard monitor's state: a running flag and the last-seen
//! fingerprints (trimmed text, image hash). Exactly one of the two
//! fingerprints is meaningful at a time — recording one clears the other,
//! because a clipboard holds one logical item.
//!
//! The monitor's polling loop itself (reading the operating system
//! clipboard on a timer, text read attempted before image read) lives
//! outside the library; each tick hands the snapshot to `observe_text` or
//! `observe_image`, which decide whether the snapshot is a change worth
//! reporting and advance the state.

use vstd::prelude::*;
use crate::chars::spec_trim;
use crate::chars::trim_str;

verus! {

/// The monitor's fixed poll interval in milliseconds. The operating system
/// clipboard offers no portable change notification, so the monitor polls.
pub const POLL_INTERVAL_MS: u64 = 300;

/// How many leading payload bytes the image fingerprint covers. Hashing a
/// bounded prefix keeps every poll tick cheap whatever the image size;
/// collisions past the prefix are an accepted trade-off of a change signal
/// that is not cryptographic.
pub const FINGERPRINT_PREFIX: usize = 4096;

/// One step of the image fingerprint: multiply-and-add modulo 2^64.
pub open spec fn fp_step(h: u64, b: u8) -> u64 {
    (((h as int) * 31 + b as int) % 0x1_0000_0000_0000_0000) as u64
}

/// The fingerprint accumulated from byte `i` on, over the bounded prefix.
pub open spec fn fp_from(data: Seq<u8>, i: int, h: u64) -> u64
    decreases data.len() - i when 0 <= i <= data.len()
{
    if i < 0 || i >= data.len() || i >= FINGERPRINT_PREFIX as int {
        h
    } else {
        fp_from(data, i + 1, fp_step(h, data[i]))
    }
}

/// The image fingerprint: the payload length folded with a bounded prefix
/// of its bytes.
pub open spec fn fingerprint_spec(data: Seq<u8>) -> u64 {
    fp_from(data, 0, (data.len() % 0x1_0000_0000_0000_0000) as u64)
}

/// The fast content fingerprint of an image payload.
pub fn fingerprint(data: &Vec<u8>) -> (h: u64)
    ensures
        h == fingerprint_spec(data@),
{
    let n = data.len();
    let cap = if n < FINGERPRINT_PREFIX {
        n
    } else {
        FINGERPRINT_PREFIX
    };
    let mut h: u64 = n as u64;
    proof {
        assert(h == (data@.len() % 0x1_0000_0000_0000_0000) as u64);
    }
    let mut i: usize = 0;
    while i < cap
        invariant
            n == data@.len(),
            cap == if n < FINGERPRINT_PREFIX {
                n
            } else {
                FINGERPRINT_PREFIX
            },
            0 <= i <= cap,
            fingerprint_spec(data@) == fp_from(data@, i as int, h),
        decreases cap - i,
    {
        let b = data[i];
        let wide: u128 = (h as u128) * 31 + (b as u128);
        let h2: u64 = (wide % 0x1_0000_0000_0000_0000u128) as u64;
        proof {
            assert(h2 == fp_step(h, data@[i as int]));
        }
        h = h2;
        i += 1;
    }
    h
}

/// The monitor's state between polls.
pub struct ClipboardListener {
    running: bool,
    last_text: Option<String>,
    last_image_fp: Option<u64>,
}

/// The mathematical value of the monitor's state.
pub struct ListenerModel {
    pub running: bool,
    pub last_text: Option<Seq<char>>,
    pub last_image_fp: Option<u64>,
}

impl View for ClipboardListener {
    type V = ListenerModel;

    closed spec fn view(&self) -> ListenerModel {
        ListenerModel {
            running: self.running,
            last_text: match self.last_text {
                Some(s) => Some(s@),
                None => None,
            },
            last_image_fp: self.last_image_fp,
        }
    }
}

/// The state and the reported change after a text snapshot: an empty
/// trimmed text is never a change; an unchanged trimmed text is no change;
/// a new one is recorded (clearing the image fingerprint) and reported.
pub open spec fn observe_text_spec(d: ListenerModel, t: Seq<char>) -> (ListenerModel, Option<
    Seq<char>,
>) {
    let tr = spec_trim(t);
    if tr.len() == 0 {
        (d, None)
    } else if d.last_text == Some(tr) {
        (d, None)
    } else {
        (ListenerModel { last_text: Some(tr), last_image_fp: None, ..d }, Some(tr))
    }
}

/// The state and the reported change after an image snapshot: an unchanged
/// fingerprint is no change; a new one is recorded (clearing the stored
/// text) and reported.
pub open spec fn observe_image_spec(d: ListenerModel, data: Seq<u8>) -> (ListenerModel, bool) {
    let fp = fingerprint_spec(data);
    if d.last_image_fp == Some(fp) {
        (d, false)
    } else {
        (ListenerModel { last_image_fp: Some(fp), last_text: None, ..d }, true)
    }
}

impl ClipboardListener {
    /// A stopped monitor that has seen nothing.
    pub fn new() -> (l: ClipboardListener)
        ensures
            l@ == (ListenerModel { running: false, last_text: None, last_image_fp: None }),
    {
        ClipboardListener { running: false, last_text: None, last_image_fp: None }
    }

    /// Mark the monitor running. Reports whether it was stopped before:
    /// starting an already-running monitor is a no-op, and the caller spins
    /// up the polling loop only on a fresh start.
    pub fn start(&mut self) -> (started: bool)
        ensures
            final(self)@ == (ListenerModel { running: true, ..old(self)@ }),
            started == !old(self)@.running,
    {
        let was_running = self.running;
        self.running = true;
        !was_running
    }

    /// Mark the monitor stopped. The polling loop observes the flag at the
    /// top of its next iteration and exits: stopping is cooperative.
    pub fn stop(&mut self)
        ensures
            final(self)@ == (ListenerModel { running: false, ..old(self)@ }),
    {
        self.running = false;
    }

    /// Whether the monitor is marked running.
    pub fn is_running(&self) -> (r: bool)
        ensures
            r == self@.running,
    {
        self.running
    }

    /// Decide whether a text snapshot is a change. Reports the trimmed text
    /// when it is, after recording it and clearing the image fingerprint.
    pub fn observe_text(&mut self, text: &str) -> (r: Option<String>)
        ensures
            final(self)@ == observe_text_spec(old(self)@, text@).0,
            match r {
                Some(s) => observe_text_spec(old(self)@, text@).1 == Some(s@),
                None => observe_text_spec(old(self)@, text@).1 is None,
            },
    {
        let trimmed = trim_str(text);
        if trimmed.is_empty() {
            return None;
        }
        let owned: String = trimmed.to_owned();
        let same = match &self.last_text {
            Some(last) => *last == owned,
            None => false,
        };
        if same {
            None
        } else {
            self.last_text = Some(owned.clone());
            self.last_image_fp = None;
            Some(owned)
        }
    }

    /// Decide whether an image snapshot is a change, by its fast content
    /// fingerprint. Records a new fingerprint and clears the stored text.
    pub fn observe_image(&mut self, data: &Vec<u8>) -> (changed: bool)
        ensures
            final(self)@ == observe_image_spec(old(self)@, data@).0,
            changed == observe_image_spec(old(self)@, data@).1,
    {
        let fp = fingerprint(data);
        let same = match self.last_image_fp {
            Some(last) => last == fp,
            None => false,
        };
        if same {
            false
        } else {
            self.last_image_fp = Some(fp);
            self.last_text = None;
            true
        }
    }
}

/// Mutual exclusivity, one direction: after an image change is recorded, a
/// text snapshot with any non-empty trimmed content — even one equal to the
/// text stored before the image — is reported as a change, and recording it
/// clears the image fingerprint.
pub proof fn lemma_image_then_text_emits(d: ListenerModel, img: Seq<u8>, t: Seq<char>)
    requires
        observe_image_spec(d, img).1,
        spec_trim(t).len() > 0,
    ensures
        observe_text_spec(observe_image_spec(d, img).0, t).1 == Some(spec_trim(t)),
        observe_text_spec(observe_image_spec(d, img).0, t).0.last_image_fp is None,
{
}

/// Mutual exclusivity, the other direction: after a text change is
/// recorded, any image snapshot — even one whose fingerprint equals the one
/// stored before the text — is reported as a change, and recording it
/// clears the stored text.
pub proof fn lemma_text_then_image_emits(d: ListenerModel, t: Seq<char>, img: Seq<u8>)
    requires
        observe_text_spec(d, t).1 is Some,
    ensures
        observe_image_spec(observe_text_spec(d, t).0, img).1,
        observe_image_spec(observe_text_spec(d, t).0, img).0.last_text is None,
{
}

} // verus!
