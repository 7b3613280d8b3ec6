//! How a batch of audios is cut into chunks.

use vstd::prelude::*;
use vstd::string::*;

use crate::errors::{failure, first_kind, in_context, uncategorized, CauseView, Error};
use crate::preprocessor::{
    check_feature_buffer, feature_buffer, law_feature_buffer_is_capped, window_count,
    window_count_of, window_of, Preprocessor,
};
use crate::time::{samples_of, FAR};

verus! {

/// The sum of a list of counts.
pub open spec fn sum_of(counts: Seq<usize>) -> nat
    decreases counts.len(),
{
    if counts.len() == 0 {
        0
    } else {
        sum_of(counts.drop_last()) + counts.last() as nat
    }
}

/// A part of a list of counts sums up to no more than the list.
pub proof fn lemma_sum_grows(counts: Seq<usize>, i: int)
    requires
        0 <= i <= counts.len(),
    ensures
        sum_of(counts.take(i)) <= sum_of(counts),
    decreases counts.len(),
{
    if i < counts.len() {
        lemma_sum_grows(counts.drop_last(), i);
        assert(counts.drop_last().take(i) =~= counts.take(i));
    } else {
        assert(counts.take(i) =~= counts);
    }
}

/// Where the chunks of each audio stand in the batch: those of audio `i`
/// are numbers `r[i]` up to but not including `r[i + 1]`.
pub fn compute_chunk_offsets(chunk_counts: &[usize]) -> (r: Vec<usize>)
    requires
        sum_of(chunk_counts@) <= usize::MAX,
    ensures
        r@.len() == chunk_counts@.len() + 1,
        forall|i: int|
            0 <= i <= chunk_counts@.len() ==> #[trigger] r@[i] == sum_of(chunk_counts@.take(i)),
{
    let mut offsets: Vec<usize> = Vec::new();
    let mut sum: usize = 0;
    offsets.push(0);
    assert(chunk_counts@.take(0) =~= Seq::empty());
    for i in 0..chunk_counts.len()
        invariant
            sum_of(chunk_counts@) <= usize::MAX,
            sum == sum_of(chunk_counts@.take(i as int)),
            offsets@.len() == i + 1,
            forall|k: int| 0 <= k <= i ==> #[trigger] offsets@[k] == sum_of(chunk_counts@.take(k)),
    {
        assert(chunk_counts@.take(i + 1).drop_last() =~= chunk_counts@.take(i as int));
        proof {
            lemma_sum_grows(chunk_counts@, i + 1);
        }
        sum = sum + chunk_counts[i];
        offsets.push(sum);
    }
    offsets
}

/// Which audio a chunk belongs to, and which of its windows it is.
#[derive(Clone, Copy, Debug, PartialEq, Eq)]
pub struct Place {
    pub audio: usize,
    pub window: usize,
}

/// The places of the chunks of a batch: every window of every audio, in
/// order.
pub open spec fn places_of(counts: Seq<usize>) -> Seq<Place>
    decreases counts.len(),
{
    if counts.len() == 0 {
        Seq::empty()
    } else {
        places_of(counts.drop_last()) + Seq::new(
            counts.last() as nat,
            |w: int| Place { audio: (counts.len() - 1) as usize, window: w as usize },
        )
    }
}

/// Lists the places of the chunks of a batch.
fn list_places(counts: &[usize]) -> (r: Vec<Place>)
    ensures
        r@ == places_of(counts@),
{
    let mut out: Vec<Place> = Vec::new();
    assert(counts@.take(0) =~= Seq::empty());
    for a in 0..counts.len()
        invariant
            out@ == places_of(counts@.take(a as int)),
    {
        let ghost before = out@;
        let ghost upto = counts@.take(a + 1);
        let ghost added = Seq::new(
            upto.last() as nat,
            |w: int| Place { audio: (upto.len() - 1) as usize, window: w as usize },
        );
        assert(upto.drop_last() =~= counts@.take(a as int));
        assert(out@ =~= before + added.take(0));
        let windows: usize = counts[a];
        for w in 0..windows
            invariant
                a < counts@.len(),
                windows == counts@[a as int],
                upto == counts@.take(a + 1),
                added == Seq::new(
                    upto.last() as nat,
                    |w: int| Place { audio: (upto.len() - 1) as usize, window: w as usize },
                ),
                out@ == before + added.take(w as int),
        {
            out.push(Place { audio: a, window: w });
            assert(out@ =~= before + added.take(w + 1));
        }
        assert(added.take(windows as int) =~= added);
    }
    assert(counts@.take(counts@.len() as int) =~= counts@);
    out
}

/// There are as many places as chunks.
pub proof fn lemma_places_len(counts: Seq<usize>)
    ensures
        places_of(counts).len() == sum_of(counts),
    decreases counts.len(),
{
    if counts.len() > 0 {
        lemma_places_len(counts.drop_last());
    }
}

/// Window `w` of audio `a` is chunk number `offset of a + w`, and no other
/// window is: offsets turn windows into chunk numbers and places turn them
/// back.
pub proof fn law_offsets_and_places_agree(counts: Seq<usize>, a: int, w: int)
    requires
        counts.len() <= usize::MAX,
        0 <= a < counts.len(),
        0 <= w < counts[a],
    ensures
        places_of(counts).len() == sum_of(counts),
        sum_of(counts.take(a)) + w < sum_of(counts.take(a + 1)) <= sum_of(counts),
        places_of(counts)[sum_of(counts.take(a)) + w] == (Place {
            audio: a as usize,
            window: w as usize,
        }),
    decreases counts.len(),
{
    let head = counts.drop_last();
    lemma_places_len(counts);
    lemma_places_len(head);
    lemma_sum_grows(counts, a + 1);
    assert(counts.take(a + 1).drop_last() =~= counts.take(a));
    if a < counts.len() - 1 {
        law_offsets_and_places_agree(head, a, w);
        assert(head.take(a) =~= counts.take(a));
        assert(head.take(a + 1) =~= counts.take(a + 1));
    } else {
        assert(counts.take(a) =~= head);
    }
}

/// Every place is a window of one of the audios.
pub proof fn law_places_are_windows(counts: Seq<usize>, g: int)
    requires
        counts.len() <= usize::MAX,
        0 <= g < places_of(counts).len(),
    ensures
        places_of(counts)[g].audio < counts.len(),
        places_of(counts)[g].window < counts[places_of(counts)[g].audio as int],
        sum_of(counts.take(places_of(counts)[g].audio as int)) + places_of(counts)[g].window == g,
    decreases counts.len(),
{
    let head = counts.drop_last();
    if counts.len() > 0 {
        lemma_places_len(head);
        if g < places_of(head).len() {
            law_places_are_windows(head, g);
            let a = places_of(head)[g].audio as int;
            assert(head.take(a) =~= counts.take(a));
        } else {
            assert(counts.take(counts.len() - 1) =~= head);
        }
    }
}

/// How many windows each audio is cut into.
pub open spec fn counts_of(lengths: Seq<usize>, n_samples: nat) -> Seq<usize> {
    lengths.map_values(|len: usize| window_count_of(len as nat, n_samples) as usize)
}

/// A batch of audios: how long each is, where its chunks start, and where
/// each chunk comes from.
#[derive(Debug)]
pub struct Batch {
    pub lengths: Vec<usize>,
    pub offsets: Vec<usize>,
    pub places: Vec<Place>,
}

impl Batch {
    /// The batch is cut into windows of `n_samples` samples.
    pub open spec fn cut(&self, n_samples: nat) -> bool {
        let counts = counts_of(self.lengths@, n_samples);
        &&& self.places@ == places_of(counts)
        &&& self.offsets@.len() == self.lengths@.len() + 1
        &&& forall|i: int|
            0 <= i <= self.lengths@.len() ==> #[trigger] self.offsets@[i] == sum_of(counts.take(i))
    }

    /// Every chunk comes from one of the audios.
    pub open spec fn listed(&self) -> bool {
        forall|g: int|
            0 <= g < self.places@.len() ==> (#[trigger] self.places@[g]).audio < self.lengths@.len()
    }
}

/// How many chunks audios make up together.
fn count_chunks(counts: &[usize]) -> (r: u128)
    ensures
        r == sum_of(counts@),
{
    let mut total: u128 = 0;
    assert(counts@.take(0) =~= Seq::empty());
    for i in 0..counts.len()
        invariant
            total == sum_of(counts@.take(i as int)),
            total <= i * 0xffff_ffff_ffff_ffff,
    {
        assert(counts@.take(i + 1).drop_last() =~= counts@.take(i as int));
        assert(i * 0xffff_ffff_ffff_ffff + 0xffff_ffff_ffff_ffff == (i + 1)
            * 0xffff_ffff_ffff_ffff) by (nonlinear_arith);
        assert((i + 1) * 0xffff_ffff_ffff_ffff <= 0xffff_ffff_ffff_ffff * 0xffff_ffff_ffff_ffff)
            by (nonlinear_arith)
            requires
                0 <= i + 1 <= 0xffff_ffff_ffff_ffff,
        ;
        total = total + counts[i] as u128;
    }
    assert(counts@.take(counts@.len() as int) =~= counts@);
    total
}

/// Cuts a batch of audios into chunks. `lengths` are their lengths in
/// samples. A batch whose features would not fit the buffer cap is refused
/// on its lengths alone.
pub fn plan_batch(lengths: Vec<usize>, preprocessor: &Preprocessor) -> (r: Result<Batch, Error>)
    requires
        preprocessor.wf(),
    ensures
        ({
            let counts = counts_of(lengths@, preprocessor.n_samples as nat);
            let features = feature_buffer(
                sum_of(counts),
                preprocessor.feature_size as nat,
                preprocessor.nb_max_frames as nat,
            );
            match r {
                Ok(batch) => {
                    &&& features is Ok
                    &&& batch.lengths@ == lengths@
                    &&& batch.cut(preprocessor.n_samples as nat)
                    &&& batch.listed()
                },
                Err(e) => features == Err::<nat, _>(e@),
            }
        }),
{
    let mut counts: Vec<usize> = Vec::new();
    let ghost all = counts_of(lengths@, preprocessor.n_samples as nat);
    for i in 0..lengths.len()
        invariant
            preprocessor.wf(),
            all == counts_of(lengths@, preprocessor.n_samples as nat),
            counts@ == all.take(i as int),
    {
        let n: usize = window_count(lengths[i], preprocessor.n_samples);
        counts.push(n);
        assert(all.take(i + 1) =~= all.take(i as int).push(n));
    }
    assert(all.take(all.len() as int) =~= all);
    let total: u128 = count_chunks(counts.as_slice());
    check_feature_buffer(total, preprocessor.feature_size, preprocessor.nb_max_frames)?;
    assert(total <= usize::MAX) by {
        assert(total <= total * preprocessor.feature_size) by (nonlinear_arith)
            requires
                preprocessor.feature_size >= 1,
                total >= 0,
        ;
    }
    let offsets = compute_chunk_offsets(counts.as_slice());
    let places = list_places(counts.as_slice());
    let batch = Batch { lengths, offsets, places };
    proof {
        assert(batch.lengths@.len() == batch.lengths.len());
        assert forall|g: int| 0 <= g < batch.places@.len() implies (
        #[trigger] batch.places@[g]).audio < batch.lengths@.len() by {
            law_places_are_windows(all, g);
        }
    }
    Ok(batch)
}

/// The chain for an audio without samples.
pub open spec fn empty_audio() -> Seq<CauseView> {
    in_context(uncategorized("samples buffer is empty"@), "building mel chunks"@)
}

/// Refuses a batch that has an audio without samples.
pub fn reject_empty(lengths: &[usize]) -> (r: Result<(), Error>)
    ensures
        match r {
            Ok(_) => forall|i: int| 0 <= i < lengths@.len() ==> #[trigger] lengths@[i] > 0,
            Err(e) => e@ == empty_audio() && exists|i: int|
                0 <= i < lengths@.len() && #[trigger] lengths@[i] == 0,
        },
{
    for i in 0..lengths.len()
        invariant
            forall|k: int| 0 <= k < i ==> #[trigger] lengths@[k] > 0,
    {
        if lengths[i] == 0 {
            assert(lengths@[i as int] == 0);
            return Err(
                failure("samples buffer is empty".to_owned()).context(
                    "building mel chunks".to_owned(),
                ),
            );
        }
    }
    Ok(())
}

/// How many samples of an audio of `len` samples are in window `window`.
pub open spec fn samples_in_window(len: nat, n_samples: nat, window: nat) -> nat {
    let start = window * n_samples;
    if len <= start {
        0
    } else if len - start < n_samples {
        (len - start) as nat
    } else {
        n_samples
    }
}

/// How many samples of an audio of `len` samples are in window `window`.
pub fn window_samples(len: usize, n_samples: usize, window: usize) -> (r: usize)
    ensures
        r == samples_in_window(len as nat, n_samples as nat, window as nat),
        r <= n_samples,
{
    assert(0 <= window * n_samples <= 0xffff_ffff_ffff_ffff * 0xffff_ffff_ffff_ffff)
        by (nonlinear_arith)
        requires
            0 <= window <= 0xffff_ffff_ffff_ffff,
            0 <= n_samples <= 0xffff_ffff_ffff_ffff,
    ;
    let start: u128 = (window as u128) * (n_samples as u128);
    if len as u128 <= start {
        return 0;
    }
    let left: usize = len - start as usize;
    if left < n_samples {
        left
    } else {
        n_samples
    }
}

/// How many frames of a chunk are audio, in the unit the aligner expects:
/// feature frames, one per hop. At least one, at most a whole window.
pub open spec fn frames_in_window(len: nat, window: nat, p: Preprocessor) -> nat {
    let frames = samples_in_window(len, p.n_samples as nat, window) / p.hop_length as nat;
    if frames > p.nb_max_frames {
        p.nb_max_frames as nat
    } else if frames < 1 {
        1
    } else {
        frames
    }
}

/// How many frames of chunk `chunk_idx` of an audio are audio.
pub fn encoder_frames_for_chunk(
    samples_len: usize,
    chunk_idx: usize,
    preprocessor: &Preprocessor,
) -> (r: usize)
    requires
        preprocessor.wf(),
    ensures
        r == frames_in_window(samples_len as nat, chunk_idx as nat, *preprocessor),
        1 <= r <= preprocessor.nb_max_frames,
{
    let samples: usize = window_samples(samples_len, preprocessor.n_samples, chunk_idx);
    let frames: usize = samples / preprocessor.hop_length;
    if frames > preprocessor.nb_max_frames {
        preprocessor.nb_max_frames
    } else if frames < 1 {
        1
    } else {
        frames
    }
}

/// When a window starts in its audio.
pub open spec fn window_start(n_samples: nat, window: nat) -> nat {
    samples_of(window * n_samples)
}

/// When a window starts in its audio.
pub fn window_start_time(n_samples: usize, window: usize) -> (r: u128)
    requires
        window * n_samples <= usize::MAX,
    ensures
        r == window_start(n_samples as nat, window as nat),
        r <= FAR,
{
    100 * ((window * n_samples) as u128)
}

/// A window of an audio starts inside the audio.
pub proof fn law_windows_start_inside(len: nat, n_samples: nat, window: nat)
    requires
        n_samples > 0,
        window < window_count_of(len, n_samples),
    ensures
        window * n_samples < len,
        samples_in_window(len, n_samples, window) > 0,
{
    let top = len + n_samples - 1;
    let count = window_count_of(len, n_samples);
    vstd::arithmetic::div_mod::lemma_fundamental_div_mod(top as int, n_samples as int);
    assert(n_samples * count <= top);
    assert(window * n_samples < len) by (nonlinear_arith)
        requires
            window + 1 <= count,
            n_samples * count <= top,
            top == len + n_samples - 1,
            n_samples > 0,
    ;
}

/// The samples of the first windows of an audio.
pub open spec fn samples_before(len: nat, n_samples: nat, windows: nat) -> nat
    decreases windows,
{
    if windows == 0 {
        0
    } else {
        samples_before(len, n_samples, (windows - 1) as nat) + samples_in_window(
            len,
            n_samples,
            (windows - 1) as nat,
        )
    }
}

/// An audio is cut into as few windows as hold it, and no window is empty.
pub proof fn law_audios_take_no_more_windows_than_needed(len: nat, n_samples: nat)
    requires
        n_samples > 0,
    ensures
        ({
            let count = window_count_of(len, n_samples);
            &&& len <= count * n_samples
            &&& len > 0 ==> count > 0 && (count - 1) * n_samples < len
            &&& len == 0 ==> count == 0
        }),
{
    let top = (len + n_samples - 1) as int;
    let n = n_samples as int;
    let count = window_count_of(len, n_samples) as int;
    vstd::arithmetic::div_mod::lemma_fundamental_div_mod(top, n);
    assert(n * count == count * n) by (nonlinear_arith);
    assert(0 <= top % n < n);
    assert((count - 1) * n == count * n - n) by (nonlinear_arith);
    if len == 0 {
        assert(count == 0) by (nonlinear_arith)
            requires
                count * n <= n - 1,
                n > 0,
                count >= 0,
        ;
    } else {
        assert(count > 0) by (nonlinear_arith)
            requires
                len <= count * n,
                len > 0,
                n > 0,
        ;
    }
}

/// The windows of an audio hold all of its samples between them, each once,
/// and each window starts where the ones before it end: every window but
/// the last is full.
pub proof fn law_windows_follow_each_other(len: nat, n_samples: nat, window: nat)
    requires
        n_samples > 0,
        window <= window_count_of(len, n_samples),
    ensures
        window < window_count_of(len, n_samples) ==> window_start(n_samples, window) == samples_of(
            samples_before(len, n_samples, window),
        ),
        window + 1 < window_count_of(len, n_samples) ==> samples_in_window(
            len,
            n_samples,
            window,
        ) == n_samples,
        window == window_count_of(len, n_samples) ==> samples_before(len, n_samples, window) == len,
    decreases window,
{
    let count = window_count_of(len, n_samples);
    law_audios_take_no_more_windows_than_needed(len, n_samples);
    if window + 1 < count {
        assert(window * n_samples + n_samples <= (count - 1) * n_samples) by (nonlinear_arith)
            requires
                window + 1 <= count - 1,
                n_samples > 0,
        ;
    }
    if window > 0 {
        let before = (window - 1) as nat;
        law_windows_follow_each_other(len, n_samples, before);
        assert(before * n_samples + n_samples == window * n_samples) by (nonlinear_arith)
            requires
                before + 1 == window,
        ;
    } else {
        assert(window * n_samples == 0) by (nonlinear_arith)
            requires
                window == 0,
        ;
    }
}

/// The windows that an audio is timed by are the ones its samples are cut
/// into: they have the same lengths.
pub proof fn law_windows_are_as_long_as_their_samples<T>(
    samples: Seq<T>,
    n_samples: nat,
    window: nat,
)
    requires
        n_samples > 0,
        window < window_count_of(samples.len(), n_samples),
    ensures
        window_of(samples, n_samples, window).len() == samples_in_window(
            samples.len(),
            n_samples,
            window,
        ),
{
    law_windows_start_inside(samples.len(), n_samples, window);
}

/// The frames of a window are the hops that fit its samples, but one at
/// least; a full window has all of its frames.
pub proof fn law_frames_are_whole_hops(len: nat, window: nat, p: Preprocessor)
    requires
        p.wf(),
    ensures
        ({
            let samples = samples_in_window(len, p.n_samples as nat, window);
            let frames = frames_in_window(len, window, p);
            &&& 1 <= frames <= p.nb_max_frames
            &&& samples >= p.hop_length ==> frames * p.hop_length <= samples < (frames + 1)
                * p.hop_length
            &&& samples < p.hop_length ==> frames == 1
            &&& samples == p.n_samples ==> frames == p.nb_max_frames
        }),
{
    let hop = p.hop_length as int;
    let samples = samples_in_window(len, p.n_samples as nat, window) as int;
    let frames = samples / hop;
    vstd::arithmetic::div_mod::lemma_fundamental_div_mod(samples, hop);
    assert(0 <= samples % hop < hop);
    assert(hop * frames == frames * hop) by (nonlinear_arith);
    assert((frames + 1) * hop == frames * hop + hop) by (nonlinear_arith);
    vstd::arithmetic::div_mod::lemma_div_is_ordered(samples, p.n_samples as int, hop);
    if samples >= hop {
        assert(frames >= 1) by (nonlinear_arith)
            requires
                samples < frames * hop + hop,
                samples >= hop,
                hop > 0,
        ;
    } else {
        assert(frames == 0) by (nonlinear_arith)
            requires
                frames * hop <= samples,
                samples < hop,
                samples < frames * hop + hop,
                samples >= 0,
                hop > 0,
        ;
    }
}

/// The chunks of a batch are the windows of its audios: chunk `g` is window
/// `w` of audio `a` exactly where `g` counts the windows of the audios
/// before `a`, and `w` more. Offsets start at nothing and end with all
/// chunks.
pub proof fn law_batches_list_every_window_once(batch: Batch, n_samples: nat, a: int, w: int)
    requires
        batch.cut(n_samples),
        n_samples > 0,
        0 <= a < batch.lengths@.len() <= usize::MAX,
        0 <= w < window_count_of(batch.lengths@[a] as nat, n_samples) <= usize::MAX,
    ensures
        batch.offsets@[0] == 0,
        batch.offsets@[batch.lengths@.len() as int] == batch.places@.len(),
        batch.offsets@[a + 1] - batch.offsets@[a] == window_count_of(
            batch.lengths@[a] as nat,
            n_samples,
        ),
        batch.offsets@[a] + w < batch.places@.len(),
        batch.places@[batch.offsets@[a] + w].audio == a,
        batch.places@[batch.offsets@[a] + w].window == w,
{
    let counts = counts_of(batch.lengths@, n_samples);
    let n = batch.lengths@.len() as int;
    assert(counts.take(0) =~= Seq::empty());
    assert(counts.take(n) =~= counts);
    assert(counts.take(a + 1).drop_last() =~= counts.take(a));
    assert(batch.offsets@[0] == sum_of(counts.take(0)));
    assert(batch.offsets@[n] == sum_of(counts.take(n)));
    assert(batch.offsets@[a] == sum_of(counts.take(a)));
    assert(batch.offsets@[a + 1] == sum_of(counts.take(a + 1)));
    assert(counts[a] == window_count_of(batch.lengths@[a] as nat, n_samples));
    lemma_places_len(counts);
    law_offsets_and_places_agree(counts, a, w);
}

/// Offsets count chunks: they start at zero, each audio takes up its own
/// chunks and no others, and the last one is the number of all chunks.
pub proof fn law_offsets_count_chunks(chunk_counts: &[usize], r: Vec<usize>, a: int)
    requires
        call_ensures(compute_chunk_offsets, (chunk_counts,), r),
        0 <= a < chunk_counts@.len(),
    ensures
        r@.len() == chunk_counts@.len() + 1,
        r@[0] == 0,
        r@[a + 1] == r@[a] + chunk_counts@[a],
        r@[chunk_counts@.len() as int] == sum_of(chunk_counts@),
{
    let n = chunk_counts@.len() as int;
    assert(chunk_counts@.take(0) =~= Seq::empty());
    assert(chunk_counts@.take(n) =~= chunk_counts@);
    assert(chunk_counts@.take(a + 1).drop_last() =~= chunk_counts@.take(a));
    assert(r@[0] == sum_of(chunk_counts@.take(0)));
    assert(r@[a] == sum_of(chunk_counts@.take(a)));
    assert(r@[a + 1] == sum_of(chunk_counts@.take(a + 1)));
    assert(r@[n] == sum_of(chunk_counts@.take(n)));
}

/// A batch is planned exactly where its features, four bytes each, fit two
/// gibibytes: as many windows as its audios have, each with all of its
/// frames. Its audios stay as they are, and a refusal is the caller's
/// fault.
pub proof fn law_batches_are_planned_if_they_fit(
    lengths: Vec<usize>,
    p: Preprocessor,
    r: Result<Batch, Error>,
)
    requires
        p.wf(),
        call_ensures(plan_batch, (lengths, &p), r),
    ensures
        r is Ok <==> sum_of(counts_of(lengths@, p.n_samples as nat)) * p.feature_size
            * p.nb_max_frames * 4 <= 2_147_483_648,
        r matches Ok(batch) ==> batch.lengths@ == lengths@ && batch.cut(p.n_samples as nat)
            && batch.listed(),
        r matches Err(e) ==> first_kind(e@) == Some("invalid_request"@),
{
    law_feature_buffer_is_capped(
        sum_of(counts_of(lengths@, p.n_samples as nat)),
        p.feature_size as nat,
        p.nb_max_frames as nat,
    );
}

} // verus!
