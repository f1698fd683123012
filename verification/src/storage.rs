use vstd::prelude::*;
use crate::errors::StorageError;

verus! {

/// Bytes of one archive entry as the tar format frames it: a 512-byte
/// header determined by the entry name and payload size, the payload,
/// and zero padding up to the next 512-byte boundary.
pub uninterp spec fn tar_entry_bytes(name: Seq<u8>, data: Seq<u8>) -> Seq<u8>;

/// Everything a sink has been handed so far, framed as tar entries.
pub uninterp spec fn tar_bytes(sink: TarSink) -> Seq<u8>;

/// The end-of-archive marker: two 512-byte blocks of zeros.
pub open spec fn end_of_archive() -> Seq<u8> {
    Seq::new(1024, |i: int| 0u8)
}

/// Size of an entry on disk: header block plus payload rounded up to
/// whole 512-byte blocks.
pub open spec fn entry_size(payload_len: nat) -> nat {
    512 + 512 * ((payload_len + 511) / 512)
}

/// Concatenation of the framed entries, in append order.
pub open spec fn body_bytes(entries: Seq<(Seq<u8>, Seq<u8>)>) -> Seq<u8>
    decreases entries.len(),
{
    if entries.len() == 0 {
        Seq::empty()
    } else {
        body_bytes(entries.drop_last()) + tar_entry_bytes(entries.last().0, entries.last().1)
    }
}

/// An entry name the tar header can hold verbatim: short enough for the
/// 100-byte name field, made of printable ASCII other than `/`, and not
/// the parent-directory component `..`, which tar refuses.
pub open spec fn valid_entry_name(name: Seq<u8>) -> bool {
    &&& 1 <= name.len() <= 100
    &&& forall|k: int| 0 <= k < name.len() ==> 33 <= #[trigger] name[k] <= 126 && name[k] != 47
    &&& name != seq![46u8, 46u8]
}

/// An in-memory tar stream under construction.
#[verifier::external_body]
pub struct TarSink {
    inner: tar::Builder<Vec<u8>>,
}

impl TarSink {
    /// Relies on tar::Builder::new over an empty in-memory buffer:
    /// nothing has been written yet.
    #[verifier::external_body]
    pub fn new() -> (s: TarSink)
        ensures
            tar_bytes(s) == Seq::<u8>::empty(),
    {
        TarSink { inner: tar::Builder::new(Vec::new()) }
    }

    /// Relies on tar::Builder::append_data: writes a 512-byte header
    /// built from the name and the payload size alone, then the
    /// payload, then zero padding to the next 512-byte boundary.
    #[verifier::external_body]
    pub fn append(&mut self, name: &Vec<u8>, data: &Vec<u8>)
        requires
            valid_entry_name(name@),
        ensures
            tar_bytes(*final(self)) == tar_bytes(*old(self)) + tar_entry_bytes(name@, data@),
            tar_bytes(*final(self)).len() == tar_bytes(*old(self)).len() + entry_size(
                data@.len(),
            ),
    {
        let mut header = tar::Header::new_gnu();
        header.set_size(data.len() as u64);
        header.set_mode(0o644);
        let path = String::from_utf8_lossy(name.as_slice()).into_owned();
        self.inner.append_data(&mut header, path, data.as_slice()).unwrap();
    }

    /// Relies on tar::Builder::into_inner: ends the archive with two
    /// 512-byte zero blocks and hands back the buffer, leaving this
    /// sink empty again.
    #[verifier::external_body]
    pub fn finish(&mut self) -> (out: Vec<u8>)
        ensures
            out@ == tar_bytes(*old(self)) + end_of_archive(),
            tar_bytes(*final(self)) == Seq::<u8>::empty(),
    {
        let inner = std::mem::replace(&mut self.inner, tar::Builder::new(Vec::new()));
        inner.into_inner().unwrap()
    }
}

/// Whole-stream gzip output at a given level; flate2's encoder derives
/// it from the input bytes and the level alone.
pub uninterp spec fn gzip_of(data: Seq<u8>, level: nat) -> Seq<u8>;

/// Relies on flate2's GzEncoder: compresses the whole buffer at the
/// given level with a fixed header, so the output is a function of the
/// input bytes and the level.
#[verifier::external_body]
pub fn gzip_bytes(data: &Vec<u8>, level: u32) -> (out: Vec<u8>)
    requires
        level <= 9,
    ensures
        out@ == gzip_of(data@, level as nat),
{
    let mut enc = flate2::GzBuilder::new().operating_system(255).write(
        Vec::new(),
        flate2::Compression::new(level),
    );
    std::io::Write::write_all(&mut enc, data.as_slice()).unwrap();
    enc.finish().unwrap()
}

/// Container bytes of a finished tar archive over `entries`.
pub open spec fn archive_bytes(entries: Seq<(Seq<u8>, Seq<u8>)>) -> Seq<u8> {
    body_bytes(entries) + end_of_archive()
}

/// Appending one entry extends the body by that entry's frame.
pub proof fn lemma_body_push(entries: Seq<(Seq<u8>, Seq<u8>)>, name: Seq<u8>, data: Seq<u8>)
    ensures
        body_bytes(entries.push((name, data))) == body_bytes(entries) + tar_entry_bytes(
            name,
            data,
        ),
{
    let p = entries.push((name, data));
    assert(p.drop_last() =~= entries);
    assert(p.last() == (name, data));
}

/// Writes melodies to a plain tar archive held in memory.
pub struct TarBackend {
    sink: TarSink,
    finished: bool,
    output: Option<Vec<u8>>,
    log: Ghost<Seq<(Seq<u8>, Seq<u8>)>>,
}

impl TarBackend {
    /// The (name, payload) pairs appended so far, in order.
    pub closed spec fn entries(self) -> Seq<(Seq<u8>, Seq<u8>)> {
        self.log@
    }

    pub closed spec fn is_finished(self) -> bool {
        self.finished
    }

    /// Bytes of the finished container.
    pub closed spec fn output_bytes(self) -> Seq<u8> {
        match self.output {
            Some(v) => v@,
            None => Seq::empty(),
        }
    }

    /// Every logged entry is framed at its tar size.
    closed spec fn frames_ok(self) -> bool {
        forall|i: int|
            0 <= i < self.log@.len() ==> (#[trigger] tar_entry_bytes(
                self.log@[i].0,
                self.log@[i].1,
            )).len() == entry_size(self.log@[i].1.len())
    }

    pub closed spec fn wf(self) -> bool {
        &&& self.frames_ok()
        &&& if self.finished {
            self.output is Some && self.output_bytes() == archive_bytes(self.log@)
        } else {
            self.output is None && tar_bytes(self.sink) == body_bytes(self.log@)
        }
    }

    pub fn new() -> (b: TarBackend)
        ensures
            b.wf(),
            !b.is_finished(),
            b.entries() == Seq::<(Seq<u8>, Seq<u8>)>::empty(),
    {
        TarBackend { sink: TarSink::new(), finished: false, output: None, log: Ghost(Seq::empty()) }
    }

    /// Buffers one melody's payload as the next archive entry.
    pub fn append_melody(&mut self, name: Vec<u8>, payload: Vec<u8>) -> (r: Result<
        (),
        StorageError,
    >)
        requires
            old(self).wf(),
            valid_entry_name(name@),
        ensures
            final(self).wf(),
            match r {
                Ok(()) => {
                    &&& !old(self).is_finished() && !final(self).is_finished()
                    &&& final(self).entries() == old(self).entries().push((name@, payload@))
                },
                Err(e) => {
                    &&& e == StorageError::AppendAfterFinish
                    &&& old(self).is_finished()
                    &&& *final(self) == *old(self)
                },
            },
    {
        if self.finished {
            return Err(StorageError::AppendAfterFinish);
        }
        proof {
            lemma_body_push(self.log@, name@, payload@);
        }
        self.sink.append(&name, &payload);
        self.log = Ghost(self.log@.push((name@, payload@)));
        Ok(())
    }

    /// Flushes the archive and writes the end-of-archive marker. A
    /// second call is rejected and leaves the written bytes untouched.
    pub fn finish(&mut self) -> (r: Result<(), StorageError>)
        requires
            old(self).wf(),
        ensures
            final(self).wf(),
            match r {
                Ok(()) => {
                    &&& !old(self).is_finished() && final(self).is_finished()
                    &&& final(self).entries() == old(self).entries()
                    &&& final(self).output_bytes() == archive_bytes(old(self).entries())
                },
                Err(e) => {
                    &&& e == StorageError::AlreadyFinished
                    &&& old(self).is_finished()
                    &&& *final(self) == *old(self)
                },
            },
    {
        if self.finished {
            return Err(StorageError::AlreadyFinished);
        }
        let out = self.sink.finish();
        self.output = Some(out);
        self.finished = true;
        Ok(())
    }

    /// Hands out the finished container.
    pub fn take_output(self) -> (r: Option<Vec<u8>>)
        requires
            self.wf(),
        ensures
            match r {
                Some(v) => self.is_finished() && v@ == self.output_bytes(),
                None => !self.is_finished(),
            },
    {
        self.output
    }
}

/// Writes melodies to a gzip-compressed tar archive held in memory.
pub struct TarGzBackend {
    sink: TarSink,
    level: u32,
    finished: bool,
    output: Option<Vec<u8>>,
    log: Ghost<Seq<(Seq<u8>, Seq<u8>)>>,
}

impl TarGzBackend {
    pub closed spec fn entries(self) -> Seq<(Seq<u8>, Seq<u8>)> {
        self.log@
    }

    pub closed spec fn is_finished(self) -> bool {
        self.finished
    }

    pub closed spec fn compression_level(self) -> nat {
        self.level as nat
    }

    pub closed spec fn output_bytes(self) -> Seq<u8> {
        match self.output {
            Some(v) => v@,
            None => Seq::empty(),
        }
    }

    pub closed spec fn wf(self) -> bool {
        &&& self.level <= 9
        &&& if self.finished {
            self.output is Some && self.output_bytes() == gzip_of(
                archive_bytes(self.log@),
                self.level as nat,
            )
        } else {
            self.output is None && tar_bytes(self.sink) == body_bytes(self.log@)
        }
    }

    pub fn new(level: u32) -> (b: TarGzBackend)
        requires
            level <= 9,
        ensures
            b.wf(),
            !b.is_finished(),
            b.entries() == Seq::<(Seq<u8>, Seq<u8>)>::empty(),
            b.compression_level() == level,
    {
        TarGzBackend {
            sink: TarSink::new(),
            level,
            finished: false,
            output: None,
            log: Ghost(Seq::empty()),
        }
    }

    /// Buffers one melody's payload as the next archive entry.
    pub fn append_melody(&mut self, name: Vec<u8>, payload: Vec<u8>) -> (r: Result<
        (),
        StorageError,
    >)
        requires
            old(self).wf(),
            valid_entry_name(name@),
        ensures
            final(self).wf(),
            match r {
                Ok(()) => {
                    &&& !old(self).is_finished() && !final(self).is_finished()
                    &&& final(self).entries() == old(self).entries().push((name@, payload@))
                    &&& final(self).compression_level() == old(self).compression_level()
                },
                Err(e) => {
                    &&& e == StorageError::AppendAfterFinish
                    &&& old(self).is_finished()
                    &&& *final(self) == *old(self)
                },
            },
    {
        if self.finished {
            return Err(StorageError::AppendAfterFinish);
        }
        proof {
            lemma_body_push(self.log@, name@, payload@);
        }
        self.sink.append(&name, &payload);
        self.log = Ghost(self.log@.push((name@, payload@)));
        Ok(())
    }

    /// Compresses the whole stream and closes the container. A second
    /// call is rejected and leaves the written bytes untouched.
    pub fn finish(&mut self) -> (r: Result<(), StorageError>)
        requires
            old(self).wf(),
        ensures
            final(self).wf(),
            match r {
                Ok(()) => {
                    &&& !old(self).is_finished() && final(self).is_finished()
                    &&& final(self).entries() == old(self).entries()
                    &&& final(self).compression_level() == old(self).compression_level()
                    &&& final(self).output_bytes() == gzip_of(
                        archive_bytes(old(self).entries()),
                        old(self).compression_level(),
                    )
                },
                Err(e) => {
                    &&& e == StorageError::AlreadyFinished
                    &&& old(self).is_finished()
                    &&& *final(self) == *old(self)
                },
            },
    {
        if self.finished {
            return Err(StorageError::AlreadyFinished);
        }
        let plain = self.sink.finish();
        let out = gzip_bytes(&plain, self.level);
        self.output = Some(out);
        self.finished = true;
        Ok(())
    }

    /// Hands out the finished container.
    pub fn take_output(self) -> (r: Option<Vec<u8>>)
        requires
            self.wf(),
        ensures
            match r {
                Some(v) => self.is_finished() && v@ == self.output_bytes(),
                None => !self.is_finished(),
            },
    {
        self.output
    }
}

/// Writes each melody to an independent file; no archive-level marker.
pub struct SingleFileBackend {
    files: Vec<(Vec<u8>, Vec<u8>)>,
    finished: bool,
}

impl SingleFileBackend {
    pub closed spec fn entries(self) -> Seq<(Seq<u8>, Seq<u8>)> {
        Seq::new(self.files@.len(), |i: int| (self.files@[i].0@, self.files@[i].1@))
    }

    pub closed spec fn is_finished(self) -> bool {
        self.finished
    }

    pub closed spec fn wf(self) -> bool {
        true
    }

    pub fn new() -> (b: SingleFileBackend)
        ensures
            b.wf(),
            !b.is_finished(),
            b.entries() == Seq::<(Seq<u8>, Seq<u8>)>::empty(),
    {
        let b = SingleFileBackend { files: Vec::new(), finished: false };
        proof {
            assert(b.entries() =~= Seq::<(Seq<u8>, Seq<u8>)>::empty());
        }
        b
    }

    /// Records one melody as its own named file.
    pub fn append_melody(&mut self, name: Vec<u8>, payload: Vec<u8>) -> (r: Result<
        (),
        StorageError,
    >)
        requires
            old(self).wf(),
        ensures
            final(self).wf(),
            match r {
                Ok(()) => {
                    &&& !old(self).is_finished() && !final(self).is_finished()
                    &&& final(self).entries() == old(self).entries().push((name@, payload@))
                },
                Err(e) => {
                    &&& e == StorageError::AppendAfterFinish
                    &&& old(self).is_finished()
                    &&& *final(self) == *old(self)
                },
            },
    {
        if self.finished {
            return Err(StorageError::AppendAfterFinish);
        }
        let ghost before = self.entries();
        let ghost n = name@;
        let ghost p = payload@;
        self.files.push((name, payload));
        proof {
            assert(self.entries() =~= before.push((n, p)));
        }
        Ok(())
    }

    /// Nothing is buffered, so finishing only seals the backend.
    pub fn finish(&mut self) -> (r: Result<(), StorageError>)
        requires
            old(self).wf(),
        ensures
            final(self).wf(),
            match r {
                Ok(()) => {
                    &&& !old(self).is_finished() && final(self).is_finished()
                    &&& final(self).entries() == old(self).entries()
                },
                Err(e) => {
                    &&& e == StorageError::AlreadyFinished
                    &&& old(self).is_finished()
                    &&& *final(self) == *old(self)
                },
            },
    {
        if self.finished {
            return Err(StorageError::AlreadyFinished);
        }
        self.finished = true;
        Ok(())
    }

    /// Hands out the named files.
    pub fn take_files(self) -> (r: Vec<(Vec<u8>, Vec<u8>)>)
        ensures
            Seq::new(r@.len(), |i: int| (r@[i].0@, r@[i].1@)) == self.entries(),
    {
        self.files
    }
}

/// The melodies of batch `j`: `bs` consecutive entries, fewer for the
/// last batch.
pub open spec fn batch_slice(entries: Seq<(Seq<u8>, Seq<u8>)>, bs: nat, j: int) -> Seq<
    (Seq<u8>, Seq<u8>),
> {
    entries.subrange(
        j * bs,
        if (j + 1) * bs <= entries.len() {
            (j + 1) * bs
        } else {
            entries.len() as int
        },
    )
}

/// The outer archive's entries for a batched run: batch `j` holds the
/// gzip-compressed tar archive of its slice of the melodies.
pub open spec fn batch_entries(
    entries: Seq<(Seq<u8>, Seq<u8>)>,
    bs: nat,
    level: nat,
) -> Seq<(Seq<u8>, Seq<u8>)>
    recommends
        bs >= 1,
{
    Seq::new(
        (entries.len() + bs - 1) as nat / bs,
        |j: int|
            (
                crate::names::batch_name_spec(j as nat),
                gzip_of(archive_bytes(batch_slice(entries, bs, j)), level),
            ),
    )
}

/// Groups melodies into fixed-size batches; each full batch becomes a
/// gzip-compressed tar stream stored as one entry of an outer,
/// uncompressed tar, bounding peak memory to one batch.
pub struct BatchBackend {
    outer: TarSink,
    cur: TarSink,
    batch_size: usize,
    cur_count: usize,
    batch_index: u64,
    level: u32,
    finished: bool,
    output: Option<Vec<u8>>,
    log: Ghost<Seq<(Seq<u8>, Seq<u8>)>>,
    cur_log: Ghost<Seq<(Seq<u8>, Seq<u8>)>>,
    outer_log: Ghost<Seq<(Seq<u8>, Seq<u8>)>>,
}

impl BatchBackend {
    /// The (name, payload) pairs appended so far, in order.
    pub closed spec fn entries(self) -> Seq<(Seq<u8>, Seq<u8>)> {
        self.log@
    }

    pub closed spec fn is_finished(self) -> bool {
        self.finished
    }

    /// Number of batch entries written to the outer archive.
    pub closed spec fn batches(self) -> nat {
        self.outer_log@.len()
    }

    pub closed spec fn size_of_batches(self) -> nat {
        self.batch_size as nat
    }

    pub closed spec fn compression_level(self) -> nat {
        self.level as nat
    }

    pub closed spec fn output_bytes(self) -> Seq<u8> {
        match self.output {
            Some(v) => v@,
            None => Seq::empty(),
        }
    }

    /// The un-finished invariant, tolerant of a just-filled batch.
    closed spec fn open_ok(self) -> bool {
        &&& self.batch_size >= 1
        &&& self.level <= 9
        &&& !self.finished
        &&& self.output is None
        &&& tar_bytes(self.outer) == body_bytes(self.outer_log@)
        &&& tar_bytes(self.cur) == body_bytes(self.cur_log@)
        &&& self.cur_count == self.cur_log@.len() <= self.batch_size
        &&& self.batch_index == self.outer_log@.len()
        &&& self.log@.len() == self.outer_log@.len() * (self.batch_size as nat)
            + self.cur_log@.len()
        &&& self.cur_log@ == self.log@.skip(
            (self.outer_log@.len() * (self.batch_size as nat)) as int,
        )
        &&& forall|j: int|
            0 <= j < self.outer_log@.len() ==> #[trigger] self.outer_log@[j] == (
                crate::names::batch_name_spec(j as nat),
                gzip_of(
                    archive_bytes(
                        self.log@.subrange(
                            j * (self.batch_size as nat),
                            (j + 1) * (self.batch_size as nat),
                        ),
                    ),
                    self.level as nat,
                ),
            )
    }

    pub closed spec fn wf(self) -> bool {
        if self.finished {
            &&& self.batch_size >= 1
            &&& self.level <= 9
            &&& self.output is Some
            &&& self.outer_log@ == batch_entries(
                self.log@,
                self.batch_size as nat,
                self.level as nat,
            )
            &&& self.output_bytes() == archive_bytes(self.outer_log@)
        } else {
            self.open_ok() && self.cur_log@.len() < self.batch_size
        }
    }

    pub fn new(batch_size: usize, level: u32) -> (b: BatchBackend)
        requires
            batch_size >= 1,
            level <= 9,
        ensures
            b.wf(),
            !b.is_finished(),
            b.entries() == Seq::<(Seq<u8>, Seq<u8>)>::empty(),
            b.size_of_batches() == batch_size,
            b.compression_level() == level,
    {
        let b = BatchBackend {
            outer: TarSink::new(),
            cur: TarSink::new(),
            batch_size,
            cur_count: 0,
            batch_index: 0,
            level,
            finished: false,
            output: None,
            log: Ghost(Seq::empty()),
            cur_log: Ghost(Seq::empty()),
            outer_log: Ghost(Seq::empty()),
        };
        proof {
            assert(b.outer_log@.len() * (b.batch_size as nat) == 0);
            assert(b.cur_log@ =~= b.log@.skip(0));
        }
        b
    }

    /// Seals the open batch into one gzip-compressed entry of the
    /// outer archive.
    fn flush_batch(&mut self)
        requires
            old(self).open_ok(),
            old(self).cur_log@.len() >= 1,
            old(self).batch_index < u64::MAX,
        ensures
            !final(self).finished,
            final(self).output is None,
            final(self).entries() == old(self).entries(),
            final(self).batches() == old(self).batches() + 1,
            final(self).cur_log@.len() == 0,
            final(self).cur_count == 0,
            final(self).batch_size == old(self).batch_size,
            final(self).level == old(self).level,
            final(self).batch_index == final(self).outer_log@.len(),
            final(self).log == old(self).log,
            final(self).outer_log@ == old(self).outer_log@.push(
                (
                    crate::names::batch_name_spec(old(self).outer_log@.len() as nat),
                    gzip_of(archive_bytes(old(self).cur_log@), old(self).level as nat),
                ),
            ),
            tar_bytes(final(self).outer) == body_bytes(final(self).outer_log@),
            tar_bytes(final(self).cur) == body_bytes(final(self).cur_log@),
    {
        let plain = self.cur.finish();
        let gz = gzip_bytes(&plain, self.level);
        let name = crate::names::batch_name(self.batch_index);
        proof {
            crate::names::lemma_batch_name_valid(self.batch_index);
            lemma_body_push(self.outer_log@, name@, gz@);
        }
        self.outer.append(&name, &gz);
        self.outer_log = Ghost(self.outer_log@.push((name@, gz@)));
        self.cur_log = Ghost(Seq::empty());
        self.cur_count = 0;
        self.batch_index = self.batch_index + 1;
    }

    /// Buffers one melody into the open batch, sealing the batch when
    /// it reaches the configured size.
    pub fn append_melody(&mut self, name: Vec<u8>, payload: Vec<u8>) -> (r: Result<
        (),
        StorageError,
    >)
        requires
            old(self).wf(),
            valid_entry_name(name@),
            old(self).entries().len() < u64::MAX,
        ensures
            final(self).wf(),
            match r {
                Ok(()) => {
                    &&& !old(self).is_finished() && !final(self).is_finished()
                    &&& final(self).entries() == old(self).entries().push((name@, payload@))
                    &&& final(self).size_of_batches() == old(self).size_of_batches()
                    &&& final(self).compression_level() == old(self).compression_level()
                },
                Err(e) => {
                    &&& e == StorageError::AppendAfterFinish
                    &&& old(self).is_finished()
                    &&& *final(self) == *old(self)
                },
            },
    {
        if self.finished {
            return Err(StorageError::AppendAfterFinish);
        }
        proof {
            lemma_body_push(self.cur_log@, name@, payload@);
            let bs = self.batch_size as nat;
            let b = self.outer_log@.len();
            assert(b <= b * bs) by (nonlinear_arith)
                requires
                    bs >= 1,
                    b >= 0,
            ;
        }
        let ghost old_log = self.log@;
        self.cur.append(&name, &payload);
        self.cur_log = Ghost(self.cur_log@.push((name@, payload@)));
        self.log = Ghost(self.log@.push((name@, payload@)));
        self.cur_count = self.cur_count + 1;
        proof {
            let bs = self.batch_size as nat;
            let b = self.outer_log@.len();
            assert(self.cur_log@ =~= self.log@.skip((b * bs) as int));
            assert forall|j: int| 0 <= j < b implies #[trigger] self.log@.subrange(
                j * bs,
                (j + 1) * bs,
            ) == old_log.subrange(j * bs, (j + 1) * bs) by {
                vstd::arithmetic::mul::lemma_mul_inequality(j + 1, b as int, bs as int);
                assert((j + 1) * bs <= b * bs);
                assert(old_log.len() == b * bs + old(self).cur_log@.len());
                assert(b * bs <= old_log.len());
                vstd::arithmetic::mul::lemma_mul_inequality(0, j, bs as int);
                vstd::arithmetic::mul::lemma_mul_inequality(j, j + 1, bs as int);
                assert(old_log.push((name@, payload@)).subrange(j * bs, (j + 1) * bs)
                    =~= old_log.subrange(j * bs, (j + 1) * bs));
                assert(self.log@ == old_log.push((name@, payload@)));
            }
        }
        if self.cur_count == self.batch_size {
            let ghost b0 = self.outer_log@.len();
            let ghost bs = self.batch_size as nat;
            let ghost full = self.cur_log@;
            self.flush_batch();
            proof {
                assert((b0 + 1) * bs == b0 * bs + bs) by (nonlinear_arith);
                assert(full =~= self.log@.subrange((b0 * bs) as int, (b0 * bs + bs) as int));
                assert(self.cur_log@ =~= self.log@.skip(((b0 + 1) * bs) as int));
                assert forall|j: int| 0 <= j < self.outer_log@.len() implies #[trigger] self
                    .outer_log@[j] == (
                    crate::names::batch_name_spec(j as nat),
                    gzip_of(
                        archive_bytes(self.log@.subrange(j * bs, (j + 1) * bs)),
                        self.level as nat,
                    ),
                ) by {
                    if j == b0 {
                        assert(self.outer_log@[j] == (
                            crate::names::batch_name_spec(b0 as nat),
                            gzip_of(archive_bytes(full), self.level as nat),
                        ));
                    }
                }
            }
        }
        Ok(())
    }

    /// Seals any open partial batch, then closes the outer archive. A
    /// second call is rejected and leaves the written bytes untouched.
    pub fn finish(&mut self) -> (r: Result<(), StorageError>)
        requires
            old(self).wf(),
            old(self).entries().len() < u64::MAX,
        ensures
            final(self).wf(),
            match r {
                Ok(()) => {
                    &&& !old(self).is_finished() && final(self).is_finished()
                    &&& final(self).entries() == old(self).entries()
                    &&& final(self).size_of_batches() == old(self).size_of_batches()
                    &&& final(self).compression_level() == old(self).compression_level()
                    &&& final(self).batches() == (old(self).entries().len() + old(
                        self,
                    ).size_of_batches() - 1) as nat / old(self).size_of_batches()
                    &&& final(self).output_bytes() == archive_bytes(
                        batch_entries(
                            old(self).entries(),
                            old(self).size_of_batches(),
                            old(self).compression_level(),
                        ),
                    )
                },
                Err(e) => {
                    &&& e == StorageError::AlreadyFinished
                    &&& old(self).is_finished()
                    &&& *final(self) == *old(self)
                },
            },
    {
        if self.finished {
            return Err(StorageError::AlreadyFinished);
        }
        let ghost bs = self.batch_size as nat;
        let ghost b0 = self.outer_log@.len();
        let ghost c0 = self.cur_log@.len();
        let ghost k = self.log@.len();
        proof {
            let b = self.outer_log@.len();
            assert(b <= b * bs) by (nonlinear_arith)
                requires
                    bs >= 1,
                    b >= 0,
            ;
        }
        let ghost cur0 = self.cur_log@;
        if self.cur_count > 0 {
            self.flush_batch();
            proof {
                assert((b0 + 1) * bs == b0 * bs + bs) by (nonlinear_arith);
            }
        }
        let out = self.outer.finish();
        self.output = Some(out);
        self.finished = true;
        proof {
            let b1 = self.outer_log@.len() as int;
            let r = if c0 == 0 {
                (bs - 1) as int
            } else {
                (c0 - 1) as int
            };
            assert((k + bs - 1) as int == b1 * bs + r);
            vstd::arithmetic::div_mod::lemma_fundamental_div_mod_converse(
                (k + bs - 1) as int,
                bs as int,
                b1,
                r,
            );
            let lvl = self.level as nat;
            let be = batch_entries(self.log@, bs, lvl);
            assert(be.len() == self.outer_log@.len());
            assert forall|j: int| 0 <= j < self.outer_log@.len() implies #[trigger] self
                .outer_log@[j] == be[j] by {
                if j < b0 {
                    vstd::arithmetic::mul::lemma_mul_inequality(j + 1, b0 as int, bs as int);
                    assert((j + 1) * bs <= b0 * bs);
                    assert(batch_slice(self.log@, bs, j) =~= self.log@.subrange(
                        j * bs,
                        (j + 1) * bs,
                    ));
                } else {
                    assert(j == b0 && c0 > 0);
                    assert((b0 + 1) * bs == b0 * bs + bs) by (nonlinear_arith);
                    assert(cur0 =~= self.log@.skip((b0 * bs) as int));
                    assert(batch_slice(self.log@, bs, j) =~= cur0);
                    assert(self.outer_log@[j] == (
                        crate::names::batch_name_spec(b0 as nat),
                        gzip_of(archive_bytes(cur0), lvl),
                    ));
                }
            }
            assert(self.outer_log@ =~= be);
        }
        Ok(())
    }

    /// Hands out the finished container.
    pub fn take_output(self) -> (r: Option<Vec<u8>>)
        requires
            self.wf(),
        ensures
            match r {
                Some(v) => self.is_finished() && v@ == self.output_bytes(),
                None => !self.is_finished(),
            },
    {
        self.output
    }
}

/// What a finished generation run hands back: loose files for the
/// single-file strategy, one container's bytes for the archive ones.
pub enum GenOutput {
    Files(Vec<(Vec<u8>, Vec<u8>)>),
    Archive(Vec<u8>),
}

/// The closed set of storage strategies behind one append/finish
/// capability.
pub enum StorageBackend {
    Single(SingleFileBackend),
    Tar(TarBackend),
    TarGz(TarGzBackend),
    Batch(BatchBackend),
}

impl StorageBackend {
    pub open spec fn wf(self) -> bool {
        match self {
            StorageBackend::Single(b) => b.wf(),
            StorageBackend::Tar(b) => b.wf(),
            StorageBackend::TarGz(b) => b.wf(),
            StorageBackend::Batch(b) => b.wf(),
        }
    }

    /// The (name, payload) pairs appended so far, in order.
    pub open spec fn entries(self) -> Seq<(Seq<u8>, Seq<u8>)> {
        match self {
            StorageBackend::Single(b) => b.entries(),
            StorageBackend::Tar(b) => b.entries(),
            StorageBackend::TarGz(b) => b.entries(),
            StorageBackend::Batch(b) => b.entries(),
        }
    }

    pub open spec fn is_finished(self) -> bool {
        match self {
            StorageBackend::Single(b) => b.is_finished(),
            StorageBackend::Tar(b) => b.is_finished(),
            StorageBackend::TarGz(b) => b.is_finished(),
            StorageBackend::Batch(b) => b.is_finished(),
        }
    }

    /// Bytes of the finished container; empty for the single-file
    /// strategy, which produces no container.
    pub open spec fn container_bytes(self) -> Seq<u8> {
        match self {
            StorageBackend::Single(b) => Seq::empty(),
            StorageBackend::Tar(b) => b.output_bytes(),
            StorageBackend::TarGz(b) => b.output_bytes(),
            StorageBackend::Batch(b) => b.output_bytes(),
        }
    }

    /// Both values use the same strategy with the same configuration.
    pub open spec fn same_config(self, other: Self) -> bool {
        match (self, other) {
            (StorageBackend::Single(_), StorageBackend::Single(_)) => true,
            (StorageBackend::Tar(_), StorageBackend::Tar(_)) => true,
            (StorageBackend::TarGz(a), StorageBackend::TarGz(b)) => a.compression_level()
                == b.compression_level(),
            (StorageBackend::Batch(a), StorageBackend::Batch(b)) => a.size_of_batches()
                == b.size_of_batches() && a.compression_level() == b.compression_level(),
            _ => false,
        }
    }

    /// Appends one melody's externally-supplied payload under the
    /// given entry name.
    pub fn append_melody(&mut self, name: Vec<u8>, payload: Vec<u8>) -> (r: Result<
        (),
        StorageError,
    >)
        requires
            old(self).wf(),
            valid_entry_name(name@),
            old(self).entries().len() < u64::MAX,
        ensures
            final(self).wf(),
            old(self).same_config(*final(self)),
            match r {
                Ok(()) => {
                    &&& !old(self).is_finished() && !final(self).is_finished()
                    &&& final(self).entries() == old(self).entries().push((name@, payload@))
                },
                Err(e) => {
                    &&& e == StorageError::AppendAfterFinish
                    &&& old(self).is_finished()
                    &&& *final(self) == *old(self)
                },
            },
    {
        match self {
            StorageBackend::Single(b) => b.append_melody(name, payload),
            StorageBackend::Tar(b) => b.append_melody(name, payload),
            StorageBackend::TarGz(b) => b.append_melody(name, payload),
            StorageBackend::Batch(b) => b.append_melody(name, payload),
        }
    }

    /// Flushes buffered data and writes the container-closing
    /// metadata. A second call is rejected with `AlreadyFinished` and
    /// leaves the written bytes untouched.
    pub fn finish(&mut self) -> (r: Result<(), StorageError>)
        requires
            old(self).wf(),
            old(self).entries().len() < u64::MAX,
        ensures
            final(self).wf(),
            old(self).same_config(*final(self)),
            match r {
                Ok(()) => {
                    &&& !old(self).is_finished() && final(self).is_finished()
                    &&& final(self).entries() == old(self).entries()
                    &&& match *old(self) {
                        StorageBackend::Single(_) => *final(self) is Single,
                        StorageBackend::Tar(_) => *final(self) is Tar
                            && final(self).container_bytes() == archive_bytes(
                            old(self).entries(),
                        ),
                        StorageBackend::TarGz(b) => *final(self) is TarGz
                            && final(self).container_bytes() == gzip_of(
                            archive_bytes(old(self).entries()),
                            b.compression_level(),
                        ),
                        StorageBackend::Batch(t) => *final(self) is Batch
                            && final(self).container_bytes() == archive_bytes(
                            batch_entries(
                                old(self).entries(),
                                t.size_of_batches(),
                                t.compression_level(),
                            ),
                        ),
                    }
                },
                Err(e) => {
                    &&& e == StorageError::AlreadyFinished
                    &&& old(self).is_finished()
                    &&& *final(self) == *old(self)
                },
            },
    {
        match self {
            StorageBackend::Single(b) => b.finish(),
            StorageBackend::Tar(b) => b.finish(),
            StorageBackend::TarGz(b) => b.finish(),
            StorageBackend::Batch(b) => b.finish(),
        }
    }

    /// Hands out what the finished run produced.
    pub fn into_output(self) -> (r: GenOutput)
        requires
            self.wf(),
            self.is_finished(),
        ensures
            match r {
                GenOutput::Files(fs) => self is Single && Seq::new(
                    fs@.len(),
                    |i: int| (fs@[i].0@, fs@[i].1@),
                ) == self.entries(),
                GenOutput::Archive(v) => !(self is Single) && v@ == self.container_bytes(),
            },
    {
        match self {
            StorageBackend::Single(b) => GenOutput::Files(b.take_files()),
            StorageBackend::Tar(b) => {
                match b.take_output() {
                    Some(v) => GenOutput::Archive(v),
                    None => {
                        proof {
                            assert(false);
                        }
                        GenOutput::Archive(Vec::new())
                    },
                }
            },
            StorageBackend::TarGz(b) => {
                match b.take_output() {
                    Some(v) => GenOutput::Archive(v),
                    None => {
                        proof {
                            assert(false);
                        }
                        GenOutput::Archive(Vec::new())
                    },
                }
            },
            StorageBackend::Batch(b) => {
                match b.take_output() {
                    Some(v) => GenOutput::Archive(v),
                    None => {
                        proof {
                            assert(false);
                        }
                        GenOutput::Archive(Vec::new())
                    },
                }
            },
        }
    }
}

/// What a finished backend's container holds, by strategy: the tar
/// framing of its entries, gzip-compressed for the compressed variant.
pub proof fn lemma_finished_container(b: StorageBackend)
    requires
        b.wf(),
        b.is_finished(),
    ensures
        match b {
            StorageBackend::Single(_) => true,
            StorageBackend::Tar(_) => b.container_bytes() == archive_bytes(b.entries()),
            StorageBackend::TarGz(t) => b.container_bytes() == gzip_of(
                archive_bytes(b.entries()),
                t.compression_level(),
            ),
            StorageBackend::Batch(t) => b.container_bytes() == archive_bytes(
                batch_entries(t.entries(), t.size_of_batches(), t.compression_level()),
            ),
        },
{
}

/// The framed body of uniform entries grows by one entry's size each.
proof fn lemma_body_len_uniform(entries: Seq<(Seq<u8>, Seq<u8>)>, p: nat)
    requires
        forall|i: int|
            0 <= i < entries.len() ==> (#[trigger] tar_entry_bytes(
                entries[i].0,
                entries[i].1,
            )).len() == entry_size(entries[i].1.len()),
        forall|i: int| 0 <= i < entries.len() ==> (#[trigger] entries[i].1).len() == p,
    ensures
        body_bytes(entries).len() == entries.len() * entry_size(p),
    decreases entries.len(),
{
    if entries.len() == 0 {
        assert(0 * entry_size(p) == 0) by (nonlinear_arith);
    } else {
        let prefix = entries.drop_last();
        lemma_body_len_uniform(prefix, p);
        let k = prefix.len();
        let es = entry_size(p);
        assert((k + 1) * es == k * es + es) by (nonlinear_arith);
    }
}

/// Size law for the uncompressed tar container: with `k` entries of
/// one payload size `p`, the finished archive holds exactly
/// `k * (512 + roundup512(p)) + 1024` bytes — what the exact
/// estimator predicts.
pub proof fn lemma_tar_archive_size(b: TarBackend, p: nat)
    requires
        b.wf(),
        b.is_finished(),
        forall|i: int| 0 <= i < b.entries().len() ==> (#[trigger] b.entries()[i].1).len() == p,
    ensures
        b.output_bytes().len() == b.entries().len() * entry_size(p) + 1024,
{
    assert(b.entries() == b.log@);
    assert forall|i: int| 0 <= i < b.log@.len() implies (#[trigger] b.log@[i].1).len() == p by {
        assert(b.entries()[i].1.len() == p);
    }
    lemma_body_len_uniform(b.log@, p);
}

} // verus!
