//! Reading many files chunk by chunk.
//!
//! Files are read and parsed in chunks, so that only the bytes of a chunk or
//! two are held at a time: while a chunk is parsed, the next one is read. The
//! batches of a chunk are merged at once, so that the result is not thousands
//! of fragments.
//!
//! Reading is left to the caller. A `ChunkedRun` tells which files come next
//! and takes in what became of them.

use vstd::prelude::*;

use crate::loader::batch::{
    field_views, lemma_field_index, Batch, BatchView, Field, FieldView,
};
use crate::loader::batch_util::{
    align_all, align_all_complaint, all_alignable, all_aligned, batch_views, concat_aligned,
    merged_by_name, total_rows, union_fields, with_fields,
};
use crate::text::copied;

verus! {

/// The greatest number of files in a chunk.
pub const IO_CHUNK_FILES: usize = 512;

/// What became of a file: its batch, or a complaint.
pub open spec fn outcome(r: Result<Batch, String>) -> Result<BatchView, Seq<char>> {
    match r {
        Ok(b) => Ok(b@),
        Err(e) => Err(e@),
    }
}

/// What became of files.
pub open spec fn outcomes(v: Seq<Result<Batch, String>>) -> Seq<Result<BatchView, Seq<char>>> {
    v.map_values(|r: Result<Batch, String>| outcome(r))
}

/// The index of the first file that failed; the number of files where none
/// did.
pub open spec fn first_failure(files: Seq<Result<BatchView, Seq<char>>>) -> int
    decreases files.len(),
{
    if files.len() == 0 || files[0] is Err {
        0
    } else {
        1 + first_failure(files.drop_first())
    }
}

/// The least index of a file that failed is `first_failure`.
pub proof fn lemma_first_failure_unique(files: Seq<Result<BatchView, Seq<char>>>, k: int)
    requires
        0 <= k <= files.len(),
        forall|i: int| 0 <= i < k ==> (#[trigger] files[i]) is Ok,
        k < files.len() ==> files[k] is Err,
    ensures
        first_failure(files) == k,
    decreases files.len(),
{
    if k > 0 {
        assert(files[0] is Ok);
        assert forall|i: int| 0 <= i < k - 1 implies (#[trigger] files.drop_first()[i]) is Ok by {
            assert(files[i + 1] is Ok);
        }
        lemma_first_failure_unique(files.drop_first(), k - 1);
    }
}

/// The batches of files that have rows, in the order of the files.
pub open spec fn with_rows(files: Seq<Result<BatchView, Seq<char>>>) -> Seq<BatchView>
    decreases files.len(),
{
    if files.len() == 0 {
        Seq::empty()
    } else {
        let front = with_rows(files.drop_last());
        match files.last() {
            Ok(b) => if b.rows > 0 {
                front.push(b)
            } else {
                front
            },
            Err(_) => front,
        }
    }
}

/// What becomes of a chunk: the complaint of its first file that failed; else
/// its batches merged, those without rows left out, or nothing where no batch
/// has rows.
pub open spec fn chunk_outcome(files: Seq<Result<BatchView, Seq<char>>>) -> Result<
    Option<BatchView>,
    Seq<char>,
> {
    let k = first_failure(files);
    let good = with_rows(files);
    if k < files.len() {
        Err(files[k]->Err_0)
    } else if good.len() == 0 {
        Ok(None)
    } else if all_alignable(good) {
        Ok(Some(merged_by_name(good)))
    } else {
        Err(align_all_complaint(good))
    }
}

/// Whether the rows of batches together can be counted: there are columns to
/// hold them, or the number fits.
pub open spec fn rows_countable(batches: Seq<BatchView>) -> bool {
    union_fields(batches).len() > 0 || total_rows(batches) <= usize::MAX
}

/// Whether a batch has columns to hold its rows, or not too many rows.
pub open spec fn moderate(b: BatchView) -> bool {
    b.fields.len() > 0 || b.rows <= usize::MAX / IO_CHUNK_FILES
}

/// Whether that holds of every file that did not fail.
pub open spec fn all_moderate(files: Seq<Result<BatchView, Seq<char>>>) -> bool {
    forall|i: int|
        0 <= i < files.len() && (#[trigger] files[i]) is Ok ==> moderate(files[i]->Ok_0)
}

proof fn lemma_with_fields_len(fields: Seq<FieldView>, more: Seq<FieldView>)
    ensures
        with_fields(fields, more).len() >= fields.len(),
        more.len() > 0 ==> with_fields(fields, more).len() > 0,
    decreases more.len(),
{
    if more.len() > 0 {
        lemma_with_fields_len(fields, more.drop_last());
        lemma_field_index(with_fields(fields, more.drop_last()), more.last().name);
    }
}

proof fn lemma_moderate_rows(files: Seq<Result<BatchView, Seq<char>>>)
    requires
        all_moderate(files),
    ensures
        union_fields(with_rows(files)).len() > 0 || total_rows(with_rows(files)) <= files.len() * (
        usize::MAX / IO_CHUNK_FILES),
    decreases files.len(),
{
    if files.len() > 0 {
        let front = files.drop_last();
        let n = front.len() as int;
        let share = (usize::MAX / IO_CHUNK_FILES) as int;
        assert(all_moderate(front)) by {
            assert forall|i: int| 0 <= i < n && (#[trigger] front[i]) is Ok implies moderate(
                front[i]->Ok_0,
            ) by {
                assert(files[i] is Ok);
            }
        }
        lemma_moderate_rows(front);
        assert(files[n] == files.last());
        assert((n + 1) * share == n * share + share) by (nonlinear_arith);
        let good = with_rows(front);
        match files.last() {
            Ok(b) => {
                assert(moderate(b));
                assert(good.push(b).drop_last() == good);
                lemma_with_fields_len(union_fields(good), b.fields);
            },
            Err(_) => {},
        }
    }
}

/// The rows of a chunk of moderate batches can be counted.
pub proof fn lemma_chunk_countable(files: Seq<Result<BatchView, Seq<char>>>)
    requires
        all_moderate(files),
        files.len() <= IO_CHUNK_FILES,
    ensures
        rows_countable(with_rows(files)),
{
    lemma_moderate_rows(files);
    let n = files.len() as int;
    let share = (usize::MAX / IO_CHUNK_FILES) as int;
    assert(n * share <= 512 * share) by (nonlinear_arith)
        requires
            0 <= n <= 512,
            0 <= share,
    ;
}

/// Merges what became of the files of a chunk.
pub fn merge_chunk(files: Vec<Result<Batch, String>>) -> (r: Result<Option<Batch>, String>)
    requires
        rows_countable(with_rows(outcomes(files@))),
    ensures
        match chunk_outcome(outcomes(files@)) {
            Ok(Some(b)) => r matches Ok(Some(merged)) && merged@ == b,
            Ok(None) => r matches Ok(None),
            Err(e) => r matches Err(s) && s@ == e,
        },
{
    let ghost all = outcomes(files@);
    let mut good: Vec<Batch> = Vec::new();
    assert(all.take(0) == Seq::<Result<BatchView, Seq<char>>>::empty());
    assert(batch_views(good@) == Seq::<BatchView>::empty());
    for file in it: files
        invariant
            it.seq() == files@,
            all == outcomes(files@),
            forall|k: int| 0 <= k < it.index() ==> (#[trigger] all[k]) is Ok,
            batch_views(good@) == with_rows(all.take(it.index())),
    {
        let ghost n = it.index();
        let ghost before = good@;
        proof {
            assert(all[n] == outcome(file));
            assert(all.take(n + 1).drop_last() == all.take(n));
        }
        match file {
            Ok(batch) => {
                if batch.num_rows() > 0 {
                    good.push(batch);
                    assert(batch_views(good@) == batch_views(before).push(batch@));
                }
            },
            Err(e) => {
                proof {
                    lemma_first_failure_unique(all, n);
                }
                return Err(e);
            },
        }
    }
    proof {
        lemma_first_failure_unique(all, all.len() as int);
        assert(all.take(all.len() as int) == all);
    }
    if good.len() == 0 {
        return Ok(None);
    }
    match concat_aligned(good.as_slice()) {
        Ok(b) => Ok(Some(b)),
        Err(e) => Err(e),
    }
}

/// The number of files in the next chunk, of those that are left.
pub open spec fn chunk_len(left: nat) -> nat {
    if left < IO_CHUNK_FILES {
        left
    } else {
        IO_CHUNK_FILES as nat
    }
}

/// The batch of a chunk, where it has one.
pub open spec fn if_any(b: Option<BatchView>) -> Seq<BatchView> {
    match b {
        Some(b) => seq![b],
        None => Seq::empty(),
    }
}

/// What becomes of files, chunk by chunk: the complaint of the first chunk
/// that failed, else the batches of the chunks that have one.
pub open spec fn run_outcome(files: Seq<Result<BatchView, Seq<char>>>) -> Result<
    Seq<BatchView>,
    Seq<char>,
>
    decreases files.len(),
{
    if files.len() == 0 {
        Ok(Seq::empty())
    } else {
        let n = chunk_len(files.len()) as int;
        match chunk_outcome(files.take(n)) {
            Err(e) => Err(e),
            Ok(b) => match run_outcome(files.skip(n)) {
                Err(e) => Err(e),
                Ok(more) => Ok(if_any(b) + more),
            },
        }
    }
}

/// What a run over files gives: a complaint where there are no files or no
/// rows.
pub open spec fn chunked_outcome(files: Seq<Result<BatchView, Seq<char>>>) -> Result<
    Seq<BatchView>,
    Seq<char>,
> {
    if files.len() == 0 {
        Err("路径列表为空"@)
    } else {
        match run_outcome(files) {
            Err(e) => Err(e),
            Ok(out) => if out.len() == 0 {
                Err("无有效数据"@)
            } else {
                Ok(out)
            },
        }
    }
}

/// A run over files: how many there are, how many are done, and the batches
/// of the chunks so far.
#[verifier::ext_equal]
pub struct RunView {
    pub total: nat,
    pub done: nat,
    pub out: Seq<BatchView>,
}

/// A run over files, chunk by chunk.
pub struct ChunkedRun {
    total: usize,
    done: usize,
    out: Vec<Batch>,
}

impl View for ChunkedRun {
    type V = RunView;

    closed spec fn view(&self) -> RunView {
        RunView {
            total: self.total as nat,
            done: self.done as nat,
            out: batch_views(self.out@),
        }
    }
}

/// The chunk of a run that starts at a file.
pub open spec fn chunk_at(run: RunView, start: nat) -> Option<(nat, nat)> {
    if start < run.total {
        Some((start, start + chunk_len((run.total - start) as nat)))
    } else {
        None
    }
}

/// The same chunk, bounds and all.
pub open spec fn same_chunk(a: Option<(usize, usize)>, b: Option<(nat, nat)>) -> bool {
    match (a, b) {
        (Some(a), Some(b)) => a.0 == b.0 && a.1 == b.1,
        (None, None) => true,
        _ => false,
    }
}

impl ChunkedRun {
    /// Starts a run over `total` files.
    pub fn start(total: usize) -> (r: Result<ChunkedRun, String>)
        ensures
            r is Err <==> total == 0,
            r matches Ok(run) ==> run@ == (RunView {
                total: total as nat,
                done: 0,
                out: Seq::empty(),
            }),
            r matches Err(e) ==> e@ == "路径列表为空"@,
    {
        if total == 0 {
            return Err(copied("路径列表为空"));
        }
        let out: Vec<Batch> = Vec::new();
        assert(batch_views(out@) == Seq::<BatchView>::empty());
        Ok(ChunkedRun { total, done: 0, out })
    }

    /// The bounds of the chunk that starts at file `start`.
    fn bounds(&self, start: usize) -> (r: Option<(usize, usize)>)
        ensures
            same_chunk(r, chunk_at(self@, start as nat)),
            r matches Some((lo, hi)) ==> lo == start && start < hi <= self@.total,
    {
        if start >= self.total {
            None
        } else if self.total - start < IO_CHUNK_FILES {
            Some((start, self.total))
        } else {
            Some((start, start + IO_CHUNK_FILES))
        }
    }

    /// The bounds of the chunk whose outcome the run waits for; `None` when
    /// all files are done.
    pub fn chunk(&self) -> (r: Option<(usize, usize)>)
        ensures
            same_chunk(r, chunk_at(self@, self@.done)),
            r matches Some((lo, hi)) ==> lo < hi <= self@.total,
    {
        self.bounds(self.done)
    }

    /// The bounds of the chunk behind that one, which can be read ahead;
    /// `None` when there is none.
    pub fn chunk_ahead(&self) -> (r: Option<(usize, usize)>)
        ensures
            match chunk_at(self@, self@.done) {
                Some(now) => same_chunk(r, chunk_at(self@, now.1)),
                None => r is None,
            },
            r matches Some((lo, hi)) ==> lo < hi <= self@.total,
    {
        match self.bounds(self.done) {
            Some((_, next)) => self.bounds(next),
            None => None,
        }
    }

    /// Takes in what became of the files of the chunk that the run waits for.
    pub fn absorb(&mut self, files: Vec<Result<Batch, String>>) -> (r: Result<(), String>)
        requires
            chunk_at(old(self)@, old(self)@.done) matches Some(now) && files@.len() == now.1
                - now.0,
            rows_countable(with_rows(outcomes(files@))),
        ensures
            match chunk_outcome(outcomes(files@)) {
                Ok(b) => r is Ok && final(self)@ == (RunView {
                    total: old(self)@.total,
                    done: old(self)@.done + files@.len(),
                    out: old(self)@.out + if_any(b),
                }),
                Err(e) => (r matches Err(s) && s@ == e) && final(self)@ == old(self)@,
            },
    {
        let n: usize = files.len();
        match merge_chunk(files) {
            Ok(Some(b)) => {
                let ghost before = self.out@;
                let done: usize = self.done + n;
                self.out.push(b);
                self.done = done;
                assert(batch_views(self.out@) == batch_views(before) + seq![b@]);
                Ok(())
            },
            Ok(None) => {
                self.done = self.done + n;
                assert(batch_views(self.out@) == batch_views(self.out@) + Seq::<
                    BatchView,
                >::empty());
                Ok(())
            },
            Err(e) => Err(e),
        }
    }

    /// The batches of all the chunks.
    pub fn finish(self) -> (r: Result<Vec<Batch>, String>)
        requires
            self@.done == self@.total,
        ensures
            r is Err <==> self@.out.len() == 0,
            r matches Ok(out) ==> batch_views(out@) == self@.out,
            r matches Err(e) ==> e@ == "无有效数据"@,
    {
        if self.out.len() == 0 {
            return Err(copied("无有效数据"));
        }
        Ok(self.out)
    }
}

/// A run's batches before those of a run over more files.
pub open spec fn preceded(
    out: Seq<BatchView>,
    r: Result<Seq<BatchView>, Seq<char>>,
) -> Result<Seq<BatchView>, Seq<char>> {
    match r {
        Ok(more) => Ok(out + more),
        Err(e) => Err(e),
    }
}

/// A run over whole chunks and then more files is the run over the chunks,
/// followed by the run over those files unless a chunk failed.
pub proof fn law_run_in_parts(
    files: Seq<Result<BatchView, Seq<char>>>,
    more: Seq<Result<BatchView, Seq<char>>>,
)
    requires
        files.len() % IO_CHUNK_FILES as nat == 0,
    ensures
        run_outcome(files + more) == match run_outcome(files) {
            Ok(out) => preceded(out, run_outcome(more)),
            Err(e) => Err(e),
        },
    decreases files.len(),
{
    let all = files + more;
    if files.len() == 0 {
        assert(all == more);
        match run_outcome(more) {
            Ok(t) => assert(Seq::<BatchView>::empty() + t == t),
            Err(_) => {},
        }
    } else {
        let n = IO_CHUNK_FILES as int;
        assert(files.len() >= n);
        assert(all.take(n) == files.take(n));
        assert(all.skip(n) == files.skip(n) + more);
        law_run_in_parts(files.skip(n), more);
        match (chunk_outcome(files.take(n)), run_outcome(files.skip(n)), run_outcome(more)) {
            (Ok(b), Ok(t), Ok(u)) => assert((if_any(b) + t) + u == if_any(b) + (t + u)),
            _ => {},
        }
    }
}

/// A run over at most a chunk of files.
pub proof fn lemma_run_chunk(files: Seq<Result<BatchView, Seq<char>>>)
    requires
        0 < files.len() <= IO_CHUNK_FILES,
    ensures
        run_outcome(files) == match chunk_outcome(files) {
            Ok(b) => Ok(if_any(b)),
            Err(e) => Err(e),
        },
{
    let n = files.len() as int;
    assert(files.take(n) == files);
    assert(files.skip(n).len() == 0);
    assert(run_outcome(files.skip(n)) == Ok::<Seq<BatchView>, Seq<char>>(Seq::empty()));
    match chunk_outcome(files) {
        Ok(b) => assert(if_any(b) + Seq::<BatchView>::empty() == if_any(b)),
        Err(_) => {},
    }
}

/// Whether a parser takes the bytes of every file that was read.
pub open spec fn parses_all<F: Fn(&[u8], &str) -> Result<Batch, String>>(
    parse: F,
    files: Seq<Result<Vec<u8>, String>>,
) -> bool {
    forall|i: int, b: &[u8], p: &str|
        #![trigger files[i], call_requires(parse, (b, p))]
        0 <= i < files.len() && files[i] is Ok && files[i]->Ok_0@ == b@ ==> call_requires(
            parse,
            (b, p),
        )
}

/// What a file that was read, or could not be, is parsed into.
pub open spec fn file_parsed<F: Fn(&[u8], &str) -> Result<Batch, String>>(
    parse: F,
    file: Result<Vec<u8>, String>,
    path: Seq<char>,
    r: Result<Batch, String>,
) -> bool {
    match file {
        Err(e) => r matches Err(s) && s@ == e@,
        Ok(bytes) => exists|b: &[u8], p: &str|
            b@ == bytes@ && p@ == path && #[trigger] call_ensures(parse, (b, p), r),
    }
}

/// What files, from the first on, are parsed into.
pub open spec fn files_parsed<F: Fn(&[u8], &str) -> Result<Batch, String>>(
    parse: F,
    files: Seq<Result<Vec<u8>, String>>,
    paths: Seq<String>,
    results: Seq<Result<Batch, String>>,
) -> bool {
    &&& results.len() <= files.len()
    &&& forall|i: int|
        0 <= i < results.len() ==> file_parsed(parse, files[i], paths[i]@, #[trigger] results[i])
}

/// What a run over `total` files returns where `results` is what they were
/// parsed into, as far as the run came: it stops behind a chunk that failed.
pub open spec fn run_returns(
    r: Result<Vec<Batch>, String>,
    results: Seq<Result<BatchView, Seq<char>>>,
    total: nat,
) -> bool {
    if results.len() < total {
        &&& results.len() % IO_CHUNK_FILES as nat == 0
        &&& run_outcome(results) matches Err(e)
        &&& r matches Err(s)
        &&& s@ == e
    } else {
        match chunked_outcome(results) {
            Ok(out) => r matches Ok(v) && batch_views(v@) == out,
            Err(e) => r matches Err(s) && s@ == e,
        }
    }
}

/// Parses files that were read, chunk by chunk, and merges the batches of
/// each chunk. The batches come in the order of the files.
///
/// `parse` takes the bytes of a file and its path.
pub fn read_parse_chunked<F>(
    paths: &[String],
    files: &[Result<Vec<u8>, String>],
    parse: F,
) -> (r: Result<Vec<Batch>, String>) where F: Fn(&[u8], &str) -> Result<Batch, String>
    requires
        paths@.len() == files@.len(),
        parses_all(parse, files@),
        forall|b: &[u8], p: &str, batch: Batch|
            call_ensures(parse, (b, p), Ok(batch)) ==> moderate(batch@),
    ensures
        exists|results: Seq<Result<Batch, String>>| #[trigger]
            files_parsed(parse, files@, paths@, results) && run_returns(
                r,
                outcomes(results),
                files@.len(),
            ),
{
    let ghost none: Seq<Result<Batch, String>> = Seq::empty();
    let mut run = match ChunkedRun::start(files.len()) {
        Ok(run) => run,
        Err(e) => {
            proof {
                assert(files_parsed(parse, files@, paths@, none));
                assert(outcomes(none).len() == 0);
            }
            return Err(e);
        },
    };
    let ghost mut seen = none;
    loop
        invariant
            paths@.len() == files@.len(),
            files@.len() > 0,
            parses_all(parse, files@),
            forall|b: &[u8], p: &str, batch: Batch|
                call_ensures(parse, (b, p), Ok(batch)) ==> moderate(batch@),
            run@.total == files@.len(),
            run@.done == seen.len() <= files@.len(),
            seen.len() % IO_CHUNK_FILES as nat == 0 || seen.len() == files@.len(),
            files_parsed(parse, files@, paths@, seen),
            run_outcome(outcomes(seen)) == Ok::<Seq<BatchView>, Seq<char>>(run@.out),
        decreases files@.len() - seen.len(),
    {
        let (lo, hi): (usize, usize) = match run.chunk() {
            Some(bounds) => bounds,
            None => {
                assert(outcomes(seen).len() == seen.len());
                return run.finish();
            },
        };
        let mut results: Vec<Result<Batch, String>> = Vec::new();
        let mut i: usize = lo;
        while i < hi
            invariant
                paths@.len() == files@.len(),
                parses_all(parse, files@),
                forall|b: &[u8], p: &str, batch: Batch|
                    call_ensures(parse, (b, p), Ok(batch)) ==> moderate(batch@),
                lo <= i <= hi <= files@.len(),
                results@.len() == i - lo,
                forall|k: int|
                    0 <= k < results@.len() ==> file_parsed(
                        parse,
                        files@[lo + k],
                        paths@[lo + k]@,
                        #[trigger] results@[k],
                    ),
                forall|k: int|
                    0 <= k < results@.len() && (#[trigger] results@[k]) is Ok
                        ==> moderate(results@[k]->Ok_0@),
            decreases hi - i,
        {
            let result = match &files[i] {
                Ok(bytes) => {
                    assert(files@[i as int] is Ok);
                    parse(bytes.as_slice(), paths[i].as_str())
                },
                Err(e) => Err(copied(e.as_str())),
            };
            assert(file_parsed(parse, files@[i as int], paths@[i as int]@, result));
            results.push(result);
            i = i + 1;
        }
        let ghost chunk = results@;
        let ghost next = seen + chunk;
        proof {
            assert(outcomes(next) == outcomes(seen) + outcomes(chunk));
            law_run_in_parts(outcomes(seen), outcomes(chunk));
            lemma_run_chunk(outcomes(chunk));
            assert forall|k: int| 0 <= k < next.len() implies file_parsed(
                parse,
                files@[k],
                paths@[k]@,
                #[trigger] next[k],
            ) by {
                if k >= seen.len() {
                    assert(next[k] == chunk[k - seen.len()]);
                    assert(lo + (k - seen.len()) == k);
                }
            }
            assert forall|k: int| 0 <= k < chunk.len() && (
            #[trigger] outcomes(chunk)[k]) is Ok implies moderate(outcomes(chunk)[k]->Ok_0) by {
                assert(chunk[k] is Ok);
            }
            lemma_chunk_countable(outcomes(chunk));
        }
        match run.absorb(results) {
            Ok(_) => {},
            Err(e) => {
                proof {
                    assert(files_parsed(parse, files@, paths@, next));
                    assert(run_returns(Err(e), outcomes(next), files@.len()));
                }
                return Err(e);
            },
        }
        proof {
            seen = next;
        }
    }
}

/// A file that was read, or could not be.
pub open spec fn file_view(file: Result<Vec<u8>, String>) -> Result<Seq<u8>, Seq<char>> {
    match file {
        Ok(bytes) => Ok(bytes@),
        Err(e) => Err(e@),
    }
}

/// The result of a parser that is a function of what it is given.
pub open spec fn parsed_alike<F: Fn(&[u8], &str) -> Result<Batch, String>>(
    parse: F,
    bytes: Seq<u8>,
    path: Seq<char>,
    expected: Result<BatchView, Seq<char>>,
) -> bool {
    forall|b: &[u8], p: &str, r: Result<Batch, String>|
        b@ == bytes && p@ == path && #[trigger] call_ensures(parse, (b, p), r) ==> outcome(r)
            == expected
}

/// What a run returns where the parser is a function of what it is given:
/// what becomes of the files depends on the files alone.
pub proof fn lemma_run_determined<F: Fn(&[u8], &str) -> Result<Batch, String>>(
    parse: F,
    files: Seq<Result<Vec<u8>, String>>,
    paths: Seq<String>,
    expected: Seq<Result<BatchView, Seq<char>>>,
    r: Result<Vec<Batch>, String>,
)
    requires
        files.len() == paths.len() == expected.len(),
        forall|i: int|
            0 <= i < files.len() ==> match #[trigger] files[i] {
                Ok(bytes) => parsed_alike(parse, bytes@, paths[i]@, expected[i]),
                Err(e) => expected[i] == Err::<BatchView, Seq<char>>(e@),
            },
        exists|results: Seq<Result<Batch, String>>| #[trigger]
            files_parsed(parse, files, paths, results) && run_returns(
                r,
                outcomes(results),
                files.len(),
            ),
    ensures
        run_returns(r, expected, files.len()),
{
    let results = choose|results: Seq<Result<Batch, String>>| #[trigger]
        files_parsed(parse, files, paths, results) && run_returns(
            r,
            outcomes(results),
            files.len(),
        );
    let n = results.len() as int;
    assert forall|i: int| 0 <= i < n implies outcomes(results)[i] == #[trigger] expected[i] by {
        assert(file_parsed(parse, files[i], paths[i]@, results[i]));
        match files[i] {
            Ok(bytes) => {
                assert(parsed_alike(parse, bytes@, paths[i]@, expected[i]));
            },
            Err(e) => {},
        }
    }
    assert(outcomes(results) == expected.take(n));
    if n < files.len() {
        law_run_in_parts(expected.take(n), expected.skip(n));
        assert(expected.take(n) + expected.skip(n) == expected);
    } else {
        assert(expected.take(n) == expected);
    }
}

/// What becomes of files in the end: the batches of their chunks, aligned to
/// the union of their fields.
pub open spec fn read_outcome(files: Seq<Result<BatchView, Seq<char>>>) -> Result<
    Seq<BatchView>,
    Seq<char>,
> {
    match chunked_outcome(files) {
        Err(e) => Err(e),
        Ok(batches) => if all_alignable(batches) {
            Ok(all_aligned(batches, union_fields(batches)))
        } else {
            Err(align_all_complaint(batches))
        },
    }
}

/// The fields of what becomes of files in the end.
pub open spec fn read_fields(files: Seq<Result<BatchView, Seq<char>>>) -> Seq<FieldView> {
    union_fields(chunked_outcome(files)->Ok_0)
}

/// Aligns the batches of a run.
pub fn align_run(run: Result<Vec<Batch>, String>) -> (r: Result<(Vec<Field>, Vec<Batch>), String>)
    ensures
        match run {
            Err(e) => r matches Err(s) && s@ == e@,
            Ok(out) => {
                let batches = batch_views(out@);
                &&& r is Ok <==> all_alignable(batches)
                &&& r matches Ok((fields, all)) ==> field_views(fields@) == union_fields(batches)
                    && batch_views(all@) == all_aligned(batches, union_fields(batches))
                &&& r matches Err(e) ==> e@ == align_all_complaint(batches)
            },
        },
{
    match run {
        Ok(out) => align_all(out.as_slice()),
        Err(e) => Err(e),
    }
}

} // verus!
