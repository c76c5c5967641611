use vstd::prelude::*;

verus! {

/// The fingerprint of a file: its size and a digest of samples of its bytes.
#[derive(Debug, Clone)]
pub struct QHash {
    pub filesize: u64,
    pub hash: [u8; 16],
}

/// The MD5 digest of `data`: what `md5::compute` returns.
pub uninterp spec fn md5_of(data: Seq<u8>) -> Seq<u8>;

/// `md5::compute`: the MD5 digest of `data`.
#[verifier::external_body]
fn md5_compute(data: &[u8]) -> (digest: [u8; 16])
    ensures
        digest@ == md5_of(data@),
{
    md5::compute(data).0
}

/// The first `n` samples, one after the other.
pub open spec fn samples_joined(parts: Seq<Vec<u8>>, n: nat) -> Seq<u8>
    decreases n,
{
    if n == 0 {
        Seq::empty()
    } else {
        samples_joined(parts, (n - 1) as nat) + parts[n - 1]@
    }
}

/// The digest of the samples of a file: the MD5 digest of the samples, one
/// after the other.
pub open spec fn digest_of(parts: Seq<Vec<u8>>) -> Seq<u8> {
    md5_of(samples_joined(parts, parts.len()))
}

/// The digest of the samples `parts`, which were read from a file at the
/// places that `make_intervals` names.
pub fn generate_with_len(parts: &Vec<Vec<u8>>) -> (hash: [u8; 16])
    ensures
        hash@ == digest_of(parts@),
{
    let mut all: Vec<u8> = Vec::new();
    let mut i: usize = 0;
    while i < parts.len()
        invariant
            i <= parts@.len(),
            all@ == samples_joined(parts@, i as nat),
        decreases parts@.len() - i,
    {
        let part = &parts[i];
        let mut k: usize = 0;
        while k < part.len()
            invariant
                i < parts@.len(),
                part == parts@[i as int],
                k <= part@.len(),
                all@ == samples_joined(parts@, i as nat) + part@.subrange(0, k as int),
            decreases part@.len() - k,
        {
            all.push(part[k]);
            assert(part@.subrange(0, k + 1) == part@.subrange(0, k as int).push(part@[k as int]));
            k += 1;
        }
        assert(part@.subrange(0, k as int) == part@);
        i += 1;
    }
    md5_compute(all.as_slice())
}

impl QHash {
    /// Whether a file of `filesize` bytes can be the fingerprinted file,
    /// which may have grown since: a file that is smaller cannot.
    pub fn fits(&self, filesize: u64) -> (fits: bool)
        ensures
            fits == (filesize >= self.filesize),
    {
        filesize >= self.filesize
    }

    /// Whether the digest is `hash`.
    pub fn has_hash(&self, hash: &[u8; 16]) -> (same: bool)
        ensures
            same == (self.hash@ == hash@),
    {
        let mut i: usize = 0;
        while i < 16
            invariant
                i <= 16,
                forall|k: int| 0 <= k < i ==> self.hash@[k] == hash@[k],
            decreases 16 - i,
        {
            if self.hash[i] != hash[i] {
                return false;
            }
            i += 1;
        }
        assert(self.hash@ =~= hash@);
        true
    }
}

/// Whether a file of `filesize` bytes is the file with the fingerprint
/// `qhash`, maybe grown since. `parts` are the samples of the file, taken as
/// for a file of `qhash.filesize` bytes. A smaller file is another file,
/// whatever the samples.
pub fn check(filesize: u64, qhash: &QHash, parts: &Vec<Vec<u8>>) -> (same: bool)
    ensures
        same == (filesize >= qhash.filesize && digest_of(parts@) == qhash.hash@),
{
    if !qhash.fits(filesize) {
        return false;
    }
    let hash = generate_with_len(parts);
    qhash.has_hash(&hash)
}

/// The fingerprint of a file of `filesize` bytes with the samples `parts`.
/// Where an older fingerprint is at hand for the same size, it is kept and
/// the samples are not looked at.
pub fn generate(filesize: u64, old_qhash: &Option<QHash>, parts: &Vec<Vec<u8>>) -> (qhash: QHash)
    ensures
        qhash.filesize == filesize,
        qhash.hash@ == match old_qhash {
            Some(old) if old.filesize == filesize => old.hash@,
            _ => digest_of(parts@),
        },
{
    match old_qhash {
        Some(old) => {
            if old.filesize == filesize {
                return QHash { filesize, hash: old.hash };
            }
        },
        None => {},
    }
    QHash { filesize, hash: generate_with_len(parts) }
}

/// The greatest size at which a file is sampled whole.
pub const WHOLE_LIMIT: u64 = 10000;

/// The number of bytes of one sample of a larger file.
pub const SAMPLE_LEN: u64 = 500;

/// The number of samples that are taken of a larger file.
pub const SAMPLES: u64 = 19;

/// How many samples are taken of a file of `filesize` bytes: of a small file
/// one for every 500 bytes begun, of a larger one 19.
pub open spec fn interval_count(filesize: int) -> int {
    if filesize <= WHOLE_LIMIT {
        (filesize + SAMPLE_LEN - 1) / (SAMPLE_LEN as int)
    } else {
        SAMPLES as int
    }
}

/// The length of the samples of a small file: its size divided by their
/// number, rounded up.
pub open spec fn part_size(filesize: int) -> int {
    (filesize + interval_count(filesize) - 1) / interval_count(filesize)
}

/// Where sample `i` starts. The samples of a small file lie one after the
/// other. Those of a larger file are spread evenly, the first at the start
/// and the last at the end of the file.
pub open spec fn interval_start(filesize: int, i: int) -> int {
    if filesize <= WHOLE_LIMIT {
        i * part_size(filesize)
    } else {
        (i * (filesize - (SAMPLE_LEN - 1))) / (SAMPLES - 1)
    }
}

/// The length of sample `i`: that of the others, or less where the file
/// ends before.
pub open spec fn interval_len(filesize: int, i: int) -> int {
    let full = if filesize <= WHOLE_LIMIT {
        part_size(filesize)
    } else {
        SAMPLE_LEN as int
    };
    let rest = filesize - interval_start(filesize, i);
    if rest < full {
        rest
    } else {
        full
    }
}

/// The samples of a file of `filesize` bytes, each with its offset and its
/// length. A file without bytes has none.
pub fn make_intervals(filesize: u64) -> (intervals: Vec<(u64, usize)>)
    ensures
        intervals@.len() == interval_count(filesize as int),
        forall|i: int|
            0 <= i < intervals@.len() ==> (#[trigger] intervals@[i]).0 == interval_start(
                filesize as int,
                i,
            ) && intervals@[i].1 == interval_len(filesize as int, i),
{
    let mut intervals: Vec<(u64, usize)> = Vec::new();
    if filesize == 0 {
        return intervals;
    }
    if filesize <= WHOLE_LIMIT {
        let parts: u64 = (filesize + SAMPLE_LEN - 1) / SAMPLE_LEN;
        let partsize: u64 = (filesize + parts - 1) / parts;
        proof {
            lemma_small_parts(filesize as int);
        }
        let mut i: u64 = 0;
        while i < parts
            invariant
                0 < filesize <= WHOLE_LIMIT,
                parts == interval_count(filesize as int),
                partsize == part_size(filesize as int),
                1 <= parts <= 20,
                1 <= partsize <= SAMPLE_LEN,
                (parts - 1) * partsize < filesize,
                i <= parts,
                intervals@.len() == i,
                forall|k: int|
                    0 <= k < i ==> (#[trigger] intervals@[k]).0 == interval_start(
                        filesize as int,
                        k,
                    ) && intervals@[k].1 == interval_len(filesize as int, k),
            decreases parts - i,
        {
            assert(i * partsize <= (parts - 1) * partsize) by (nonlinear_arith)
                requires
                    i <= parts - 1,
                    partsize >= 0,
            ;
            let offset: u64 = i * partsize;
            let rest: u64 = filesize - offset;
            let len: u64 = if rest < partsize {
                rest
            } else {
                partsize
            };
            intervals.push((offset, len as usize));
            i += 1;
        }
        return intervals;
    }
    let span: u64 = filesize - (SAMPLE_LEN - 1);
    let mut i: u64 = 0;
    while i < SAMPLES
        invariant
            filesize > WHOLE_LIMIT,
            span == filesize - (SAMPLE_LEN - 1),
            i <= SAMPLES,
            intervals@.len() == i,
            forall|k: int|
                0 <= k < i ==> (#[trigger] intervals@[k]).0 == interval_start(filesize as int, k)
                    && intervals@[k].1 == interval_len(filesize as int, k),
        decreases SAMPLES - i,
    {
        assert(0 <= i * span <= 18 * span) by (nonlinear_arith)
            requires
                0 <= i <= 18,
                span >= 0,
        ;
        let scaled: u128 = i as u128 * span as u128;
        assert(scaled / 18 <= span);
        let offset: u64 = (scaled / ((SAMPLES - 1) as u128)) as u64;
        let rest: u64 = filesize - offset;
        let len: u64 = if rest < SAMPLE_LEN {
            rest
        } else {
            SAMPLE_LEN
        };
        intervals.push((offset, len as usize));
        i += 1;
    }
    intervals
}

/// The samples of a small file are at most 500 bytes long, and the last one
/// starts inside the file.
proof fn lemma_small_parts(filesize: int)
    requires
        0 < filesize <= WHOLE_LIMIT,
    ensures
        1 <= interval_count(filesize) <= 20,
        1 <= part_size(filesize) <= SAMPLE_LEN,
        (interval_count(filesize) - 1) * part_size(filesize) < filesize,
        interval_count(filesize) * part_size(filesize) >= filesize,
{
    let parts = interval_count(filesize);
    let size = part_size(filesize);
    assert(500 * (parts - 1) < filesize <= 500 * parts);
    assert(size * parts <= filesize + parts - 1 < size * parts + parts) by (nonlinear_arith)
        requires
            size == (filesize + parts - 1) / parts,
            parts > 0,
    ;
    assert(size <= 500) by (nonlinear_arith)
        requires
            size * parts <= filesize + parts - 1,
            filesize <= 500 * parts,
            parts > 0,
    ;
    assert(size >= 1) by (nonlinear_arith)
        requires
            filesize + parts - 1 < size * parts + parts,
            filesize > 0,
            parts > 0,
    ;
    assert((parts - 1) * size <= (parts - 1) * 500) by (nonlinear_arith)
        requires
            size <= 500,
            parts >= 1,
    ;
    assert(parts * size >= filesize) by (nonlinear_arith)
        requires
            filesize + parts - 1 < size * parts + parts,
    ;
}

/// The samples of a file that has bytes start at the start of the file, end
/// at its end and do not overlap: each ends where the next one starts or
/// before.
pub proof fn lemma_intervals_in_order(filesize: int)
    requires
        0 < filesize <= u64::MAX,
    ensures
        interval_count(filesize) >= 1,
        interval_start(filesize, 0) == 0,
        interval_start(filesize, interval_count(filesize) - 1) + interval_len(
            filesize,
            interval_count(filesize) - 1,
        ) == filesize,
        forall|i: int|
            0 <= i < interval_count(filesize) - 1 ==> #[trigger] interval_start(filesize, i)
                + interval_len(filesize, i) <= interval_start(filesize, i + 1),
        forall|i: int|
            0 <= i < interval_count(filesize) ==> 0 <= #[trigger] interval_len(filesize, i),
{
    let parts = interval_count(filesize);
    if filesize <= WHOLE_LIMIT {
        lemma_small_parts(filesize);
        let size = part_size(filesize);
        assert forall|i: int| 0 <= i < parts implies 0 <= #[trigger] interval_len(filesize, i)
            && (i < parts - 1 ==> interval_start(filesize, i) + interval_len(filesize, i)
            <= interval_start(filesize, i + 1)) by {
            assert(i * size <= (parts - 1) * size) by (nonlinear_arith)
                requires
                    i <= parts - 1,
                    size >= 0,
            ;
            assert((i + 1) * size == i * size + size) by (nonlinear_arith);
        }
        assert(parts * size == (parts - 1) * size + size) by (nonlinear_arith);
    } else {
        let span = filesize - 499;
        assert(interval_start(filesize, 18) == span) by {
            assert((18 * span) / 18 == span);
        }
        assert forall|i: int| 0 <= i < parts implies 0 <= #[trigger] interval_len(filesize, i)
            && (i < parts - 1 ==> interval_start(filesize, i) + interval_len(filesize, i)
            <= interval_start(filesize, i + 1)) by {
            let a = i * span;
            let b = (i + 1) * span;
            assert(b == a + span) by (nonlinear_arith)
                requires
                    a == i * span,
                    b == (i + 1) * span,
            ;
            assert(a <= 18 * span) by (nonlinear_arith)
                requires
                    a == i * span,
                    0 <= i <= 18,
                    span >= 0,
            ;
            // span is at least 18 * 500, so one step is at least 500 bytes
            assert(a / 18 + 500 <= b / 18);
            assert(a / 18 <= span);
        }
    }
}

} // verus!
