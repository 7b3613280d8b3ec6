//! The geometry of the feature extractor: the checked
//! `preprocessor_config.json`, the windows that audio is cut into, their
//! padding, and the frames inside a window. Samples are of any type; what
//! is computed from them is the extractor's affair.

use vstd::prelude::*;
use vstd::string::*;

use crate::errors::{categorized, failure, invalid_request, uncategorized, CauseView, Error};
use crate::text::{decimal, decimal_of};

verus! {

/// Cap on a buffer of features, filters or padded samples, in bytes: two
/// gibibytes.
pub const MAX_FEATURE_BUFFER_BYTES: usize = 2_147_483_648;

/// The fields of `preprocessor_config.json`. Of a filterbank only the
/// lengths of its rows matter here.
#[derive(Debug)]
pub struct PreprocessorConfig {
    pub feature_size: usize,
    pub hop_length: usize,
    pub n_fft: usize,
    pub n_samples: usize,
    pub nb_max_frames: usize,
    pub sampling_rate: usize,
    pub mel_filter_rows: Option<Vec<usize>>,
}

/// The numbers of a feature extractor.
#[derive(Clone, Copy, Debug)]
pub struct Preprocessor {
    /// Features per frame.
    pub feature_size: usize,
    /// Samples from one frame to the next.
    pub hop_length: usize,
    /// Samples in one frame.
    pub n_fft: usize,
    /// Samples in one window.
    pub n_samples: usize,
    /// Frames in one window.
    pub nb_max_frames: usize,
    /// Samples per second.
    pub sampling_rate: usize,
}

/// Samples reflected onto each side of a window.
pub open spec fn pad_of(n_fft: nat) -> nat {
    n_fft / 2
}

/// The length of a padded window.
pub open spec fn padded_len(n_samples: nat, n_fft: nat) -> nat {
    n_samples + 2 * pad_of(n_fft)
}

impl Preprocessor {
    /// What a checked configuration guarantees.
    pub open spec fn wf(&self) -> bool {
        &&& self.feature_size > 0
        &&& self.hop_length > 0
        &&& self.n_fft > 0
        &&& self.n_samples > 0
        &&& self.nb_max_frames > 0
        &&& self.sampling_rate > 0
        &&& self.nb_max_frames == self.n_samples / self.hop_length
        &&& padded_len(self.n_samples as nat, self.n_fft as nat) * 4 <= MAX_FEATURE_BUFFER_BYTES
    }
}

/// The name and value of each field that must be positive, in the order
/// they are checked.
pub open spec fn positive_fields(c: PreprocessorConfig) -> Seq<(Seq<char>, usize)> {
    seq![
        ("feature_size"@, c.feature_size),
        ("hop_length"@, c.hop_length),
        ("n_fft"@, c.n_fft),
        ("n_samples"@, c.n_samples),
        ("nb_max_frames"@, c.nb_max_frames),
        ("sampling_rate"@, c.sampling_rate),
    ]
}

/// The first of `fields` that is zero.
pub open spec fn first_zero(fields: Seq<(Seq<char>, usize)>) -> Option<Seq<char>>
    decreases fields.len(),
{
    if fields.len() == 0 {
        None
    } else if fields[0].1 == 0 {
        Some(fields[0].0)
    } else {
        first_zero(fields.skip(1))
    }
}

/// The first row whose length is not `cols`.
pub open spec fn first_ragged(rows: Seq<usize>, cols: usize) -> Option<int> {
    if exists|i: int| ragged_at(rows, cols, i) {
        Some(choose|i: int| ragged_at(rows, cols, i))
    } else {
        None
    }
}

/// Whether row `i` is the first whose length is not `cols`.
pub open spec fn ragged_at(rows: Seq<usize>, cols: usize, i: int) -> bool {
    &&& 0 <= i < rows.len()
    &&& rows[i] != cols
    &&& forall|j: int| 0 <= j < i ==> rows[j] == cols
}

/// What is said of a field that is zero.
pub open spec fn zero_message(field: Seq<char>, path: Seq<char>) -> Seq<char> {
    field + " must be positive in "@ + path
}

/// What is said of frames that do not fill the window.
pub open spec fn frames_message(c: PreprocessorConfig, path: Seq<char>) -> Seq<char> {
    "nb_max_frames "@ + decimal_of(c.nb_max_frames as nat) + " is not n_samples / hop_length = "@
        + decimal_of(c.n_samples as nat / c.hop_length as nat) + " in "@ + path
}

/// What is said of a window that is too long.
pub open spec fn pad_message(path: Seq<char>) -> Seq<char> {
    "n_samples and n_fft exceed the feature buffer cap in "@ + path
}

/// A shape, written `[rows, columns]`.
pub open spec fn shape_text(rows: nat, cols: nat) -> Seq<char> {
    "["@ + decimal_of(rows) + ", "@ + decimal_of(cols) + "]"@
}

/// What is said of a filterbank of the wrong shape.
pub open spec fn shape_message(
    rows: nat,
    cols: nat,
    expected_rows: nat,
    expected_cols: nat,
    path: Seq<char>,
) -> Seq<char> {
    "mel_filters shape "@ + shape_text(rows, cols)
        + " does not match [feature_size, n_fft / 2 + 1] = "@ + shape_text(
        expected_rows,
        expected_cols,
    ) + " in "@ + path
}

/// What is said of a filterbank whose rows differ in length.
pub open spec fn ragged_message(row: nat, len: nat, cols: nat, path: Seq<char>) -> Seq<char> {
    "mel_filters row "@ + decimal_of(row) + " has "@ + decimal_of(len) + " columns, expected "@
        + decimal_of(cols) + " in "@ + path
}

/// What is said of a filterbank that is too large.
pub open spec fn filterbank_message(path: Seq<char>) -> Seq<char> {
    "mel filterbank exceeds the feature buffer cap in "@ + path
}

/// Why the given filterbank, or the one that would be built, is refused,
/// if it is.
pub open spec fn filterbank_fault(c: PreprocessorConfig, path: Seq<char>) -> Option<Seq<char>> {
    let expected_rows = c.feature_size as nat;
    let expected_cols = (c.n_fft / 2 + 1) as nat;
    match c.mel_filter_rows {
        Some(rows) => {
            let n_rows = rows@.len();
            let n_cols = if n_rows > 0 {
                rows@[0] as nat
            } else {
                0
            };
            if n_rows != expected_rows || n_cols != expected_cols {
                Some(shape_message(n_rows, n_cols, expected_rows, expected_cols, path))
            } else {
                match first_ragged(rows@, rows@[0]) {
                    Some(row) => Some(
                        ragged_message(row as nat, rows@[row] as nat, expected_cols, path),
                    ),
                    None => None,
                }
            }
        },
        None => if expected_rows * expected_cols * 8 > MAX_FEATURE_BUFFER_BYTES {
            Some(filterbank_message(path))
        } else {
            None
        },
    }
}

/// Why a configuration is refused, if it is: a field is zero, the frames
/// do not fill the window, a padded window exceeds the buffer cap, or the
/// filterbank is at fault.
pub open spec fn config_fault(c: PreprocessorConfig, path: Seq<char>) -> Option<Seq<char>> {
    match first_zero(positive_fields(c)) {
        Some(field) => Some(zero_message(field, path)),
        None => if c.nb_max_frames != c.n_samples / c.hop_length {
            Some(frames_message(c, path))
        } else if padded_len(c.n_samples as nat, c.n_fft as nat) * 4 > MAX_FEATURE_BUFFER_BYTES {
            Some(pad_message(path))
        } else {
            filterbank_fault(c, path)
        },
    }
}

/// The numbers of a configuration.
pub open spec fn numbers_of(c: PreprocessorConfig) -> Preprocessor {
    Preprocessor {
        feature_size: c.feature_size,
        hop_length: c.hop_length,
        n_fft: c.n_fft,
        n_samples: c.n_samples,
        nb_max_frames: c.nb_max_frames,
        sampling_rate: c.sampling_rate,
    }
}

/// The failure for a field that is zero.
fn zero_fault(field: &str, path: &str) -> (r: Error)
    ensures
        r@ == uncategorized(zero_message(field@, path@)),
{
    let mut message = field.to_owned();
    message.append(" must be positive in ");
    message.append(path);
    failure(message)
}

/// Appends a shape to a message.
fn append_shape(message: &mut String, rows: usize, cols: usize)
    ensures
        final(message)@ == old(message)@ + shape_text(rows as nat, cols as nat),
{
    message.append("[");
    message.append(decimal(rows as u128).as_str());
    message.append(", ");
    message.append(decimal(cols as u128).as_str());
    message.append("]");
    assert(message@ =~= old(message)@ + shape_text(rows as nat, cols as nat));
}

/// Whether `a * b * c` is at most `cap`.
fn product_within(a: usize, b: usize, c: usize, cap: usize) -> (r: bool)
    ensures
        r == (a * b * c <= cap),
{
    assert(0 <= a * b <= 0xffff_ffff_ffff_ffff * 0xffff_ffff_ffff_ffff) by (nonlinear_arith)
        requires
            0 <= a <= 0xffff_ffff_ffff_ffff,
            0 <= b <= 0xffff_ffff_ffff_ffff,
    ;
    let ab: u128 = (a as u128) * (b as u128);
    match ab.checked_mul(c as u128) {
        Some(n) => n <= cap as u128,
        None => false,
    }
}

impl Preprocessor {
    /// Checks a configuration read from the file `path`. A corrupt one is
    /// refused here, with the offending field named, rather than at the
    /// first transcription.
    pub fn from_config(config: &PreprocessorConfig, path: &str) -> (r: Result<Preprocessor, Error>)
        ensures
            match r {
                Ok(p) => config_fault(*config, path@) is None && p == numbers_of(*config)
                    && p.wf(),
                Err(e) => config_fault(*config, path@) is Some && e@ == uncategorized(
                    config_fault(*config, path@)->0,
                ),
            },
    {
        proof {
            reveal_with_fuel(first_zero, 7);
            let f = positive_fields(*config);
            assert(f.skip(1).skip(1) =~= f.skip(2));
            assert(f.skip(2).skip(1) =~= f.skip(3));
            assert(f.skip(3).skip(1) =~= f.skip(4));
            assert(f.skip(4).skip(1) =~= f.skip(5));
            assert(f.skip(5).skip(1) =~= f.skip(6));
        }
        if config.feature_size == 0 {
            return Err(zero_fault("feature_size", path));
        }
        if config.hop_length == 0 {
            return Err(zero_fault("hop_length", path));
        }
        if config.n_fft == 0 {
            return Err(zero_fault("n_fft", path));
        }
        if config.n_samples == 0 {
            return Err(zero_fault("n_samples", path));
        }
        if config.nb_max_frames == 0 {
            return Err(zero_fault("nb_max_frames", path));
        }
        if config.sampling_rate == 0 {
            return Err(zero_fault("sampling_rate", path));
        }
        if config.nb_max_frames != config.n_samples / config.hop_length {
            let mut message = "nb_max_frames ".to_owned();
            message.append(decimal(config.nb_max_frames as u128).as_str());
            message.append(" is not n_samples / hop_length = ");
            message.append(decimal((config.n_samples / config.hop_length) as u128).as_str());
            message.append(" in ");
            message.append(path);
            assert(message@ == frames_message(*config, path@));
            return Err(failure(message));
        }
        let padded: u128 = (config.n_samples as u128) + 2 * ((config.n_fft / 2) as u128);
        if padded * 4 > MAX_FEATURE_BUFFER_BYTES as u128 {
            let mut message = "n_samples and n_fft exceed the feature buffer cap in ".to_owned();
            message.append(path);
            return Err(failure(message));
        }
        let expected_rows: usize = config.feature_size;
        let expected_cols: usize = config.n_fft / 2 + 1;
        match &config.mel_filter_rows {
            Some(rows) => {
                let n_rows: usize = rows.len();
                let n_cols: usize = if n_rows > 0 {
                    rows[0]
                } else {
                    0
                };
                if n_rows != expected_rows || n_cols != expected_cols {
                    let mut message = "mel_filters shape ".to_owned();
                    append_shape(&mut message, n_rows, n_cols);
                    message.append(" does not match [feature_size, n_fft / 2 + 1] = ");
                    append_shape(&mut message, expected_rows, expected_cols);
                    message.append(" in ");
                    message.append(path);
                    assert(message@ == shape_message(
                        n_rows as nat,
                        n_cols as nat,
                        expected_rows as nat,
                        expected_cols as nat,
                        path@,
                    ));
                    return Err(failure(message));
                }
                for i in 0..rows.len()
                    invariant
                        rows@ == config.mel_filter_rows->0@,
                        config.mel_filter_rows is Some,
                        rows@.len() == expected_rows == config.feature_size,
                        expected_cols == config.n_fft / 2 + 1,
                        rows@.len() > 0,
                        rows@[0] == expected_cols,
                        forall|j: int| 0 <= j < i ==> rows@[j] == expected_cols,
                        forall|message: Seq<char>|
                            filterbank_fault(*config, path@) == Some(message) ==> config_fault(
                                *config,
                                path@,
                            ) == Some(message),
                {
                    if rows[i] != expected_cols {
                        let mut message = "mel_filters row ".to_owned();
                        message.append(decimal(i as u128).as_str());
                        message.append(" has ");
                        message.append(decimal(rows[i] as u128).as_str());
                        message.append(" columns, expected ");
                        message.append(decimal(expected_cols as u128).as_str());
                        message.append(" in ");
                        message.append(path);
                        proof {
                            assert(ragged_at(rows@, expected_cols, i as int));
                            let at = first_ragged(rows@, expected_cols)->0;
                            assert(ragged_at(rows@, expected_cols, at));
                            assert(at == i);
                            assert(message@ == ragged_message(
                                i as nat,
                                rows@[i as int] as nat,
                                expected_cols as nat,
                                path@,
                            ));
                            assert(filterbank_fault(*config, path@) == Some(message@));
                        }
                        return Err(failure(message));
                    }
                }
            },
            None => {
                if !product_within(expected_rows, expected_cols, 8, MAX_FEATURE_BUFFER_BYTES) {
                    let mut message = "mel filterbank exceeds the feature buffer cap in ".to_owned();
                    message.append(path);
                    return Err(failure(message));
                }
            },
        }
        Ok(
            Preprocessor {
                feature_size: config.feature_size,
                hop_length: config.hop_length,
                n_fft: config.n_fft,
                n_samples: config.n_samples,
                nb_max_frames: config.nb_max_frames,
                sampling_rate: config.sampling_rate,
            },
        )
    }
}

/// How many windows of `n_samples` samples an audio of `len` samples is cut
/// into; the last may be short.
pub open spec fn window_count_of(len: nat, n_samples: nat) -> nat {
    (len + n_samples - 1) as nat / n_samples
}

/// How many windows an audio is cut into.
pub fn window_count(len: usize, n_samples: usize) -> (r: usize)
    requires
        n_samples > 0,
    ensures
        r == window_count_of(len as nat, n_samples as nat),
        r <= len,
        r == 0 <==> len == 0,
{
    let whole: usize = len / n_samples;
    proof {
        lemma_window_count(len as int, n_samples as int);
    }
    if len % n_samples == 0 {
        whole
    } else {
        whole + 1
    }
}

/// A length in windows, rounded up.
proof fn lemma_window_count(len: int, n: int)
    requires
        len >= 0,
        n > 0,
    ensures
        (len + n - 1) / n == if len % n == 0 {
            len / n
        } else {
            len / n + 1
        },
        len / n <= len,
        len % n != 0 ==> len / n < len,
        len > 0 ==> (len + n - 1) / n > 0,
{
    let q = len / n;
    let r = len % n;
    vstd::arithmetic::div_mod::lemma_fundamental_div_mod(len, n);
    assert(0 <= r < n);
    assert(0 <= q <= q * n) by (nonlinear_arith)
        requires
            n >= 1,
            n * q + r == len,
            len >= 0,
            0 <= r < n,
    ;
    assert(n * q == q * n) by (nonlinear_arith);
    if r == 0 {
        assert(len > 0 ==> q > 0) by (nonlinear_arith)
            requires
                q * n == len,
                n > 0,
        ;
        vstd::arithmetic::div_mod::lemma_fundamental_div_mod_converse(len + n - 1, n, q, n - 1);
    } else {
        assert((q + 1) * n == q * n + n) by (nonlinear_arith);
        assert(n * (q + 1) == (q + 1) * n) by (nonlinear_arith);
        vstd::arithmetic::div_mod::lemma_fundamental_div_mod_converse(
            len + n - 1,
            n,
            q + 1,
            r - 1,
        );
    }
}

/// The samples of window `index`.
pub open spec fn window_of<T>(samples: Seq<T>, n_samples: nat, index: nat) -> Seq<T> {
    let start = index * n_samples;
    samples.subrange(
        start as int,
        start + if samples.len() - start < n_samples {
            samples.len() - start
        } else {
            n_samples as int
        },
    )
}

/// Element `i` of a chunk that is extended with zeros.
pub open spec fn extended<T>(chunk: Seq<T>, zero: T, i: int) -> T {
    if i < chunk.len() {
        chunk[i]
    } else {
        zero
    }
}

/// Element `i` of the left padding and the body.
pub open spec fn left_and_body<T>(chunk: Seq<T>, zero: T, pad: int, i: int) -> T {
    if i < pad {
        extended(chunk, zero, pad - i)
    } else {
        extended(chunk, zero, i - pad)
    }
}

/// A chunk extended with zeros to `n_samples` and padded with `pad`
/// elements on each side that mirror it without repeating its edges.
pub open spec fn reflected<T>(chunk: Seq<T>, zero: T, n_samples: nat, pad: nat) -> Seq<T> {
    let end = pad + n_samples;
    Seq::new(
        n_samples + 2 * pad,
        |i: int|
            if i < end {
                left_and_body(chunk, zero, pad as int, i)
            } else if 2 * end - 2 - i >= 0 {
                left_and_body(chunk, zero, pad as int, 2 * end - 2 - i)
            } else {
                left_and_body(chunk, zero, pad as int, 0)
            },
    )
}

/// Pads one chunk for the centred transform: the chunk is extended with
/// zeros to `n_samples`, and `pad` elements on each side mirror it without
/// repeating its edges. A mirror image that reaches past the chunk reads
/// the zeros.
pub fn reflect_pad_chunk<T: Copy>(chunk: &[T], n_samples: usize, pad: usize, zero: T) -> (r: Vec<T>)
    requires
        chunk@.len() <= n_samples + pad,
        n_samples + 2 * pad <= usize::MAX,
    ensures
        r@ == reflected(chunk@, zero, n_samples as nat, pad as nat),
{
    let end: usize = pad + n_samples;
    let mut out: Vec<T> = Vec::new();
    for i in 0..pad
        invariant
            n_samples + 2 * pad <= usize::MAX,
            out@.len() == i,
            forall|k: int|
                0 <= k < i ==> #[trigger] out@[k] == left_and_body(chunk@, zero, pad as int, k),
    {
        let src: usize = pad - i;
        out.push(
            if src < chunk.len() {
                chunk[src]
            } else {
                zero
            },
        );
    }
    for i in 0..n_samples
        invariant
            n_samples + 2 * pad <= usize::MAX,
            out@.len() == pad + i,
            forall|k: int|
                0 <= k < pad + i ==> #[trigger] out@[k] == left_and_body(
                    chunk@,
                    zero,
                    pad as int,
                    k,
                ),
    {
        out.push(
            if i < chunk.len() {
                chunk[i]
            } else {
                zero
            },
        );
    }
    let ghost front = out@;
    for i in 0..pad
        invariant
            n_samples + 2 * pad <= usize::MAX,
            end == pad + n_samples,
            front.len() == end,
            forall|k: int|
                0 <= k < end ==> #[trigger] front[k] == left_and_body(chunk@, zero, pad as int, k),
            out@.len() == end + i,
            out@.take(end as int) == front,
            forall|k: int|
                end <= k < end + i ==> #[trigger] out@[k] == reflected(
                    chunk@,
                    zero,
                    n_samples as nat,
                    pad as nat,
                )[k],
    {
        let src: usize = if end >= 2 && end - 2 >= i {
            end - 2 - i
        } else {
            0
        };
        assert(out@[src as int] == front[src as int]);
        let mirrored = out[src];
        out.push(mirrored);
        assert(out@.take(end as int) =~= front);
    }
    assert forall|k: int| 0 <= k < out@.len() implies out@[k] == reflected(
        chunk@,
        zero,
        n_samples as nat,
        pad as nat,
    )[k] by {
        if k < end {
            assert(out@.take(end as int)[k] == out@[k]);
            assert(front[k] == left_and_body(chunk@, zero, pad as int, k));
        }
    }
    assert(out@ =~= reflected(chunk@, zero, n_samples as nat, pad as nat));
    out
}

/// A window at least as long as its padding is mirrored the way a
/// `reflect` padding of the zero-extended window is: the right padding
/// reads the window backwards from the element before its last.
pub proof fn law_right_padding_mirrors_the_body<T>(
    chunk: Seq<T>,
    zero: T,
    n_samples: nat,
    pad: nat,
    i: int,
)
    requires
        pad < n_samples,
        0 <= i < pad,
    ensures
        reflected(chunk, zero, n_samples, pad)[pad + n_samples + i] == extended(
            chunk,
            zero,
            n_samples - 2 - i,
        ),
        reflected(chunk, zero, n_samples, pad)[i] == extended(chunk, zero, pad - i),
{
}

impl Preprocessor {
    /// The padded window `index` of an audio.
    pub fn padded_window<T: Copy>(&self, samples: &[T], index: usize, zero: T) -> (r: Vec<T>)
        requires
            self.wf(),
            index < window_count_of(samples@.len(), self.n_samples as nat),
        ensures
            r@ == reflected(
                window_of(samples@, self.n_samples as nat, index as nat),
                zero,
                self.n_samples as nat,
                pad_of(self.n_fft as nat),
            ),
    {
        let n: usize = self.n_samples;
        let len: usize = samples.len();
        proof {
            lemma_window_start(len as int, n as int, index as int);
        }
        let start: usize = index * n;
        let end: usize = if len - start < n {
            len
        } else {
            start + n
        };
        let window = vstd::slice::slice_subrange(samples, start, end);
        assert(window@ =~= window_of(samples@, n as nat, index as nat));
        reflect_pad_chunk(window, n, self.n_fft / 2, zero)
    }

    /// Where frame `f` of a padded window starts.
    pub fn frame_start(&self, f: usize) -> (r: usize)
        requires
            self.wf(),
            f < self.nb_max_frames,
        ensures
            r == f * self.hop_length,
            r + self.n_fft <= padded_len(self.n_samples as nat, self.n_fft as nat),
    {
        proof {
            law_frames_fit(*self, f as nat);
        }
        f * self.hop_length
    }

    /// Frame `f` of a padded window.
    pub fn frame<T: Copy>(&self, padded: &[T], f: usize) -> (r: Vec<T>)
        requires
            self.wf(),
            f < self.nb_max_frames,
            padded@.len() == padded_len(self.n_samples as nat, self.n_fft as nat),
        ensures
            r@ == padded@.subrange(f * self.hop_length, f * self.hop_length + self.n_fft),
    {
        let start: usize = self.frame_start(f);
        let total: usize = padded.len();
        let mut out: Vec<T> = Vec::new();
        for i in 0..self.n_fft
            invariant
                start == f * self.hop_length,
                start + self.n_fft <= total == padded@.len(),
                out@ == padded@.subrange(start as int, start + i),
        {
            out.push(padded[start + i]);
            assert(out@ =~= padded@.subrange(start as int, start + i + 1));
        }
        out
    }
}

/// A window starts inside the audio.
proof fn lemma_window_start(len: int, n: int, index: int)
    requires
        len >= 0,
        n > 0,
        0 <= index < (len + n - 1) / n,
    ensures
        0 <= index * n < len,
{
    lemma_window_count(len, n);
    vstd::arithmetic::div_mod::lemma_fundamental_div_mod(len, n);
    let q = len / n;
    assert(n * q == q * n) by (nonlinear_arith);
    assert(0 <= index * n) by (nonlinear_arith)
        requires
            index >= 0,
            n > 0,
    ;
    if len % n == 0 {
        assert(index * n + n <= q * n) by (nonlinear_arith)
            requires
                index + 1 <= q,
                n > 0,
        ;
    } else {
        assert(index * n <= q * n) by (nonlinear_arith)
            requires
                index <= q,
                n > 0,
        ;
    }
}

/// Every frame of a checked configuration lies inside the padded window, so
/// each window yields all of its frames.
pub proof fn law_frames_fit(p: Preprocessor, f: nat)
    requires
        p.wf(),
        f < p.nb_max_frames,
    ensures
        f * p.hop_length + p.n_fft <= padded_len(p.n_samples as nat, p.n_fft as nat),
{
    let n = p.n_samples as int;
    let hop = p.hop_length as int;
    vstd::arithmetic::div_mod::lemma_fundamental_div_mod(n, hop);
    assert(f * hop + hop <= (n / hop) * hop) by (nonlinear_arith)
        requires
            f + 1 <= n / hop,
            hop > 0,
    ;
    assert((n / hop) * hop == hop * (n / hop)) by (nonlinear_arith);
}

/// The windows of an audio, one after the other, are the audio.
pub proof fn law_windows_partition_the_audio<T>(samples: Seq<T>, n_samples: nat, i: int)
    requires
        n_samples > 0,
        0 <= i < samples.len(),
    ensures
        ({
            let index = (i / (n_samples as int)) as nat;
            &&& index < window_count_of(samples.len(), n_samples)
            &&& (i % (n_samples as int)) < window_of(samples, n_samples, index).len()
            &&& window_of(samples, n_samples, index)[i % (n_samples as int)] == samples[i]
        }),
{
    let n = n_samples as int;
    let len = samples.len() as int;
    let index = i / n;
    vstd::arithmetic::div_mod::lemma_fundamental_div_mod(i, n);
    vstd::arithmetic::div_mod::lemma_fundamental_div_mod(len, n);
    lemma_window_count(len, n);
    assert(index * n == n * index) by (nonlinear_arith);
    assert(index >= 0) by (nonlinear_arith)
        requires
            n > 0,
            n * index + i % n == i,
            i >= 0,
            i % n < n,
    ;
    assert(index < (len + n - 1) / n) by {
        let q = len / n;
        assert(q * n == n * q) by (nonlinear_arith);
        if len % n == 0 {
            assert(index < q) by (nonlinear_arith)
                requires
                    n > 0,
                    index * n < q * n,
            ;
        } else {
            assert(index < q + 1) by (nonlinear_arith)
                requires
                    n > 0,
                    index * n < q * n + n,
            ;
        }
    }
}

/// What is said of a batch whose features exceed the cap.
pub open spec fn too_large_message(bytes: nat) -> Seq<char> {
    "batch feature buffer "@ + decimal_of(bytes) + " bytes exceeds "@ + decimal_of(
        MAX_FEATURE_BUFFER_BYTES as nat,
    ) + " byte cap; split the input into smaller transcribe_batch calls"@
}

/// What is said of a batch whose features cannot even be counted.
pub open spec fn overflow_message(total_chunks: nat, n_mels: nat, chunk_length: nat) -> Seq<char> {
    "batch feature buffer size overflows usize (total_chunks="@ + decimal_of(total_chunks)
        + ", n_mels="@ + decimal_of(n_mels) + ", chunk_length="@ + decimal_of(chunk_length) + ")"@
}

/// The number of features of a batch, four bytes each, or why there are too
/// many.
pub open spec fn feature_buffer(total_chunks: nat, n_mels: nat, chunk_length: nat) -> Result<
    nat,
    Seq<CauseView>,
> {
    let elements = total_chunks * n_mels * chunk_length;
    if total_chunks * n_mels > usize::MAX || elements * 4 > usize::MAX {
        Err(
            categorized(
                "invalid_request"@,
                overflow_message(total_chunks, n_mels, chunk_length),
            ),
        )
    } else if elements * 4 > MAX_FEATURE_BUFFER_BYTES {
        Err(categorized("invalid_request"@, too_large_message(elements * 4)))
    } else {
        Ok(elements)
    }
}

/// The refusal of a batch whose features cannot even be counted.
fn overflow_fault(total_chunks: u128, n_mels: usize, chunk_length: usize) -> (r: Error)
    ensures
        r@ == categorized(
            "invalid_request"@,
            overflow_message(total_chunks as nat, n_mels as nat, chunk_length as nat),
        ),
{
    let mut message = "batch feature buffer size overflows usize (total_chunks=".to_owned();
    message.append(decimal(total_chunks).as_str());
    message.append(", n_mels=");
    message.append(decimal(n_mels as u128).as_str());
    message.append(", chunk_length=");
    message.append(decimal(chunk_length as u128).as_str());
    message.append(")");
    invalid_request(message)
}

/// The number of features of a batch. A batch whose features exceed the
/// buffer cap is refused before any of them is computed.
pub fn check_feature_buffer(total_chunks: u128, n_mels: usize, chunk_length: usize) -> (r: Result<
    usize,
    Error,
>)
    ensures
        match r {
            Ok(n) => feature_buffer(total_chunks as nat, n_mels as nat, chunk_length as nat) == Ok::<
                nat,
                Seq<CauseView>,
            >(n as nat),
            Err(e) => feature_buffer(total_chunks as nat, n_mels as nat, chunk_length as nat)
                == Err::<nat, _>(e@),
        },
{
    if n_mels == 0 {
        assert(total_chunks * n_mels == 0 && total_chunks * n_mels * chunk_length == 0)
            by (nonlinear_arith)
            requires
                n_mels == 0,
        ;
        return Ok(0);
    }
    if total_chunks > usize::MAX as u128 {
        assert(total_chunks * n_mels > usize::MAX) by (nonlinear_arith)
            requires
                total_chunks > usize::MAX,
                n_mels >= 1,
        ;
        return Err(overflow_fault(total_chunks, n_mels, chunk_length));
    }
    match (total_chunks as usize).checked_mul(n_mels) {
        None => Err(overflow_fault(total_chunks, n_mels, chunk_length)),
        Some(rows) => match rows.checked_mul(chunk_length) {
            None => Err(overflow_fault(total_chunks, n_mels, chunk_length)),
            Some(elements) => match elements.checked_mul(4) {
                None => Err(overflow_fault(total_chunks, n_mels, chunk_length)),
                Some(bytes) => {
                    if bytes > MAX_FEATURE_BUFFER_BYTES {
                        let mut message = "batch feature buffer ".to_owned();
                        message.append(decimal(bytes as u128).as_str());
                        message.append(" bytes exceeds ");
                        message.append(decimal(MAX_FEATURE_BUFFER_BYTES as u128).as_str());
                        message.append(
                            " byte cap; split the input into smaller transcribe_batch calls",
                        );
                        return Err(invalid_request(message));
                    }
                    Ok(elements)
                },
            },
        },
    }
}

/// A configuration is accepted exactly where every number is positive, the
/// frames fill the window, a padded window of four-byte samples fits two
/// gibibytes, and so does the filterbank that would be built, eight bytes
/// an entry; a filterbank that is given has to have one row per feature and
/// one column per frequency instead.
pub proof fn law_configurations_are_checked(c: PreprocessorConfig, path: Seq<char>)
    ensures
        config_fault(c, path) is None <==> {
            &&& c.feature_size > 0
            &&& c.hop_length > 0
            &&& c.n_fft > 0
            &&& c.n_samples > 0
            &&& c.nb_max_frames > 0
            &&& c.sampling_rate > 0
            &&& c.nb_max_frames == c.n_samples as nat / c.hop_length as nat
            &&& (c.n_samples + 2 * (c.n_fft as nat / 2)) * 4 <= 2_147_483_648
            &&& c.mel_filter_rows is None ==> c.feature_size * (c.n_fft as nat / 2 + 1) * 8
                <= 2_147_483_648
            &&& c.mel_filter_rows matches Some(rows) ==> rows@.len() == c.feature_size
                && forall|i: int|
                0 <= i < rows@.len() ==> #[trigger] rows@[i] == c.n_fft as nat / 2 + 1
        },
{
    reveal_with_fuel(first_zero, 7);
    let f = positive_fields(c);
    assert(f.skip(1).skip(1) =~= f.skip(2));
    assert(f.skip(2).skip(1) =~= f.skip(3));
    assert(f.skip(3).skip(1) =~= f.skip(4));
    assert(f.skip(4).skip(1) =~= f.skip(5));
    assert(f.skip(5).skip(1) =~= f.skip(6));
    if let Some(rows) = c.mel_filter_rows {
        if rows@.len() > 0 {
            lemma_first_ragged(rows@, rows@[0], 0);
        }
    }
}

/// Where a row has another length, one is the first that does.
proof fn lemma_first_ragged(rows: Seq<usize>, cols: usize, from: int)
    requires
        0 <= from <= rows.len(),
        forall|j: int| 0 <= j < from ==> rows[j] == cols,
    ensures
        first_ragged(rows, cols) is None <==> forall|i: int|
            0 <= i < rows.len() ==> #[trigger] rows[i] == cols,
    decreases rows.len() - from,
{
    if from < rows.len() {
        if rows[from] == cols {
            lemma_first_ragged(rows, cols, from + 1);
        } else {
            assert(ragged_at(rows, cols, from));
        }
    } else if exists|i: int| ragged_at(rows, cols, i) {
        let i = choose|i: int| ragged_at(rows, cols, i);
        assert(rows[i] != cols);
    }
}

/// A field that is zero is named, the first of them in the order of the
/// fields.
pub proof fn law_zero_fields_are_named(c: PreprocessorConfig, path: Seq<char>)
    ensures
        c.feature_size == 0 ==> config_fault(c, path) == Some(
            "feature_size"@ + " must be positive in "@ + path,
        ),
        c.feature_size > 0 && c.hop_length == 0 ==> config_fault(c, path) == Some(
            "hop_length"@ + " must be positive in "@ + path,
        ),
        c.feature_size > 0 && c.hop_length > 0 && c.n_fft == 0 ==> config_fault(c, path) == Some(
            "n_fft"@ + " must be positive in "@ + path,
        ),
        c.feature_size > 0 && c.hop_length > 0 && c.n_fft > 0 && c.n_samples == 0 ==> config_fault(
            c,
            path,
        ) == Some("n_samples"@ + " must be positive in "@ + path),
        c.feature_size > 0 && c.hop_length > 0 && c.n_fft > 0 && c.n_samples > 0 && c.nb_max_frames
            == 0 ==> config_fault(c, path) == Some(
            "nb_max_frames"@ + " must be positive in "@ + path,
        ),
        c.feature_size > 0 && c.hop_length > 0 && c.n_fft > 0 && c.n_samples > 0 && c.nb_max_frames
            > 0 && c.sampling_rate == 0 ==> config_fault(c, path) == Some(
            "sampling_rate"@ + " must be positive in "@ + path,
        ),
{
    reveal_with_fuel(first_zero, 7);
    let f = positive_fields(c);
    assert(f.skip(1).skip(1) =~= f.skip(2));
    assert(f.skip(2).skip(1) =~= f.skip(3));
    assert(f.skip(3).skip(1) =~= f.skip(4));
    assert(f.skip(4).skip(1) =~= f.skip(5));
    assert(f.skip(5).skip(1) =~= f.skip(6));
}

/// Padding keeps the chunk in the middle, with zeros behind it up to the
/// window, and mirrors what is there without repeating the edges: on the
/// left about the first sample, on the right about the last, as far as
/// there is anything to mirror.
pub proof fn law_padding_mirrors_about_the_edges<T>(
    chunk: Seq<T>,
    zero: T,
    n_samples: nat,
    pad: nat,
    i: int,
)
    ensures
        ({
            let all = reflected(chunk, zero, n_samples, pad);
            let end = pad + n_samples;
            &&& all.len() == n_samples + 2 * pad
            &&& 0 <= i < n_samples && i < chunk.len() ==> all[pad + i] == chunk[i]
            &&& 0 <= i < n_samples && i >= chunk.len() ==> all[pad + i] == zero
            &&& 0 < i <= pad && i < n_samples ==> all[pad - i] == all[pad + i]
            &&& 0 < i <= pad && i >= chunk.len() ==> all[pad - i] == zero
            &&& 0 < i <= pad && i < end ==> all[end - 1 + i] == all[end - 1 - i]
            &&& 0 < i <= pad && i >= end && end > 0 ==> all[end - 1 + i] == all[0]
        }),
{
}

/// The features of a batch are counted exactly, and refused exactly where
/// they take more than two gibibytes at four bytes each. A refusal is the
/// caller's fault.
pub proof fn law_feature_buffer_is_capped(total_chunks: nat, n_mels: nat, chunk_length: nat)
    requires
        chunk_length > 0,
    ensures
        feature_buffer(total_chunks, n_mels, chunk_length) is Ok <==> total_chunks * n_mels
            * chunk_length * 4 <= 2_147_483_648,
        feature_buffer(total_chunks, n_mels, chunk_length) matches Ok(n) ==> n == total_chunks
            * n_mels * chunk_length,
        feature_buffer(total_chunks, n_mels, chunk_length) matches Err(e) ==> e.len() == 1
            && e[0].kind == Some("invalid_request"@),
{
    let rows = total_chunks * n_mels;
    assert(rows <= rows * chunk_length) by (nonlinear_arith)
        requires
            chunk_length >= 1,
            rows >= 0,
    ;
}

/// The frames of a padded window start one hop after another, each as long
/// as the transform.
pub proof fn law_frames_are_hops_apart<T: Copy>(p: Preprocessor, padded: Seq<T>, f: nat)
    requires
        p.wf(),
        f < p.nb_max_frames,
        padded.len() == padded_len(p.n_samples as nat, p.n_fft as nat),
    ensures
        padded.len() == p.n_samples + 2 * (p.n_fft as nat / 2),
        f * p.hop_length + p.n_fft <= padded.len(),
        p.nb_max_frames * p.hop_length <= p.n_samples,
        p.n_samples < (p.nb_max_frames + 1) * p.hop_length,
{
    let n = p.n_samples as int;
    let hop = p.hop_length as int;
    law_frames_fit(p, f);
    vstd::arithmetic::div_mod::lemma_fundamental_div_mod(n, hop);
    assert(0 <= n % hop < hop);
    assert(hop * (n / hop) == (n / hop) * hop) by (nonlinear_arith);
    assert((n / hop + 1) * hop == (n / hop) * hop + hop) by (nonlinear_arith);
}

/// What is wrong with the frames or the filterbank of a configuration is
/// named: the number of frames that would fit, the shape that was expected
/// and the one that was found, or the first row whose length is off.
pub proof fn law_misshapen_configurations_are_named(
    c: PreprocessorConfig,
    path: Seq<char>,
    row: int,
)
    requires
        c.feature_size > 0 && c.hop_length > 0 && c.n_fft > 0,
        c.n_samples > 0 && c.nb_max_frames > 0 && c.sampling_rate > 0,
    ensures
        c.nb_max_frames != c.n_samples as nat / c.hop_length as nat ==> config_fault(c, path)
            == Some(
            "nb_max_frames "@ + decimal_of(c.nb_max_frames as nat)
                + " is not n_samples / hop_length = "@ + decimal_of(
                c.n_samples as nat / c.hop_length as nat,
            ) + " in "@ + path,
        ),
        ({
            let sound = c.nb_max_frames == c.n_samples as nat / c.hop_length as nat && (c.n_samples
                + 2 * (c.n_fft as nat / 2)) * 4 <= 2_147_483_648;
            let cols = c.n_fft as nat / 2 + 1;
            sound ==> (c.mel_filter_rows matches Some(rows) ==> {
                &&& rows@.len() != c.feature_size ==> config_fault(c, path) == Some(
                    "mel_filters shape "@ + ("["@ + decimal_of(rows@.len()) + ", "@ + decimal_of(
                        if rows@.len() > 0 {
                            rows@[0] as nat
                        } else {
                            0
                        },
                    ) + "]"@) + " does not match [feature_size, n_fft / 2 + 1] = "@ + ("["@
                        + decimal_of(c.feature_size as nat) + ", "@ + decimal_of(cols) + "]"@)
                        + " in "@ + path,
                )
                &&& rows@.len() == c.feature_size && 0 < row < rows@.len() && rows@[row] != cols
                    && (forall|j: int| 0 <= j < row ==> rows@[j] == cols) ==> config_fault(c, path)
                    == Some(
                    "mel_filters row "@ + decimal_of(row as nat) + " has "@ + decimal_of(
                        rows@[row] as nat,
                    ) + " columns, expected "@ + decimal_of(cols) + " in "@ + path,
                )
            })
        }),
{
    reveal_with_fuel(first_zero, 7);
    let f = positive_fields(c);
    assert(f.skip(1).skip(1) =~= f.skip(2));
    assert(f.skip(2).skip(1) =~= f.skip(3));
    assert(f.skip(3).skip(1) =~= f.skip(4));
    assert(f.skip(4).skip(1) =~= f.skip(5));
    assert(f.skip(5).skip(1) =~= f.skip(6));
    if let Some(rows) = c.mel_filter_rows {
        let cols = (c.n_fft / 2 + 1) as nat;
        if rows@.len() == c.feature_size && 0 < row < rows@.len() && rows@[row] != cols && (
        forall|j: int| 0 <= j < row ==> rows@[j] == cols) {
            assert(rows@[0] == cols);
            assert(ragged_at(rows@, rows@[0], row));
            let at = first_ragged(rows@, rows@[0])->0;
            assert(ragged_at(rows@, rows@[0], at));
            assert(at == row);
        }
    }
}

/// A frame is a stretch of the padded window, as long as the transform, one
/// hop after the frame before it.
pub proof fn law_frames_are_stretches<T: Copy>(
    p: Preprocessor,
    padded: &[T],
    f: usize,
    r: Vec<T>,
    i: int,
)
    requires
        p.wf(),
        f < p.nb_max_frames,
        padded@.len() == padded_len(p.n_samples as nat, p.n_fft as nat),
        call_ensures(Preprocessor::frame::<T>, (&p, padded, f), r),
        0 <= i < p.n_fft,
    ensures
        r@.len() == p.n_fft,
        r@[i] == padded@[f * p.hop_length + i],
{
    law_frames_fit(p, f as nat);
    assert(0 <= f * p.hop_length) by (nonlinear_arith)
        requires
            0 <= f,
            0 <= p.hop_length,
    ;
}

/// A padded window holds the window's own samples in the middle: those that
/// come after all windows before it, and zeros where the audio has ended.
pub proof fn law_padded_windows_hold_their_samples<T: Copy>(
    p: Preprocessor,
    samples: &[T],
    index: usize,
    zero: T,
    r: Vec<T>,
    i: int,
)
    requires
        p.wf(),
        index < window_count_of(samples@.len(), p.n_samples as nat),
        call_ensures(Preprocessor::padded_window::<T>, (&p, samples, index, zero), r),
        0 <= i < p.n_samples,
    ensures
        ({
            let pad = p.n_fft as int / 2;
            let at = index * p.n_samples + i;
            &&& r@.len() == p.n_samples + 2 * pad
            &&& at < samples@.len() ==> r@[pad + i] == samples@[at]
            &&& at >= samples@.len() ==> r@[pad + i] == zero
        }),
{
    let n = p.n_samples as nat;
    lemma_window_start(samples@.len() as int, n as int, index as int);
    let chunk = window_of(samples@, n, index as nat);
    law_padding_mirrors_about_the_edges(chunk, zero, n, pad_of(p.n_fft as nat), i);
}

/// A batch that is too large is told how large it is, in bytes.
pub proof fn law_large_batches_are_told_their_size(
    total_chunks: nat,
    n_mels: nat,
    chunk_length: nat,
)
    requires
        total_chunks * n_mels <= usize::MAX,
        2_147_483_648 < total_chunks * n_mels * chunk_length * 4 <= usize::MAX,
    ensures
        feature_buffer(total_chunks, n_mels, chunk_length) == Err::<nat, _>(
            categorized(
                "invalid_request"@,
                "batch feature buffer "@ + decimal_of(total_chunks * n_mels * chunk_length * 4)
                    + " bytes exceeds "@ + decimal_of(2_147_483_648)
                    + " byte cap; split the input into smaller transcribe_batch calls"@,
            ),
        ),
{
}

/// A configuration that is accepted keeps its numbers, every one of them,
/// and one that is not is reported with what is wrong with it.
pub proof fn law_accepted_configurations_keep_their_numbers(
    c: PreprocessorConfig,
    path: &str,
    r: Result<Preprocessor, Error>,
)
    requires
        call_ensures(Preprocessor::from_config, (&c, path), r),
    ensures
        r matches Ok(p) ==> {
            &&& p.feature_size == c.feature_size
            &&& p.hop_length == c.hop_length
            &&& p.n_fft == c.n_fft
            &&& p.n_samples == c.n_samples
            &&& p.nb_max_frames == c.nb_max_frames
            &&& p.sampling_rate == c.sampling_rate
            &&& p.wf()
        },
        r is Ok <==> config_fault(c, path@) is None,
        r matches Err(e) ==> e@.len() == 1 && e@[0].kind is None && config_fault(c, path@) == Some(
            e@[0].message,
        ),
{
}

} // verus!
