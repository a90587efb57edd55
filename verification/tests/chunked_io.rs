use johnnybt_polars::loader::batch::{Batch, Column, DataType, Field};
use johnnybt_polars::loader::chunked_io::{
    align_run, merge_chunk, read_parse_chunked, ChunkedRun, IO_CHUNK_FILES,
};

fn one(n: &[i64]) -> Batch {
    Batch::try_new(
        vec![Field::new("k", DataType::Int64, true)],
        vec![Column::Int64(n.iter().map(|x| Some(*x)).collect())],
    )
    .unwrap()
}

fn cells(b: &Batch) -> Vec<Option<i64>> {
    match &b.columns()[0] {
        Column::Int64(v) => v.clone(),
        _ => panic!(),
    }
}

#[test]
fn a_run_goes_chunk_by_chunk() {
    let mut run = ChunkedRun::start(IO_CHUNK_FILES + 2).unwrap_or_else(|e| panic!("{e}"));
    assert_eq!(run.chunk(), Some((0, IO_CHUNK_FILES)));
    assert_eq!(run.chunk_ahead(), Some((IO_CHUNK_FILES, IO_CHUNK_FILES + 2)));
    run.absorb((0..IO_CHUNK_FILES).map(|i| Ok(one(&[i as i64]))).collect()).unwrap();
    assert_eq!(run.chunk(), Some((IO_CHUNK_FILES, IO_CHUNK_FILES + 2)));
    assert_eq!(run.chunk_ahead(), None);
    run.absorb(vec![Ok(one(&[])), Ok(one(&[7, 8]))]).unwrap();
    assert_eq!(run.chunk(), None);
    assert_eq!(run.chunk_ahead(), None);
    let out = run.finish().unwrap();
    assert_eq!(out.len(), 2);
    assert_eq!(out[0].num_rows(), IO_CHUNK_FILES);
    assert_eq!(cells(&out[1]), vec![Some(7), Some(8)]);
}

#[test]
fn a_run_without_files_or_rows_is_refused() {
    assert_eq!(ChunkedRun::start(0).err().unwrap(), "路径列表为空");
    let mut run = ChunkedRun::start(1).unwrap_or_else(|e| panic!("{e}"));
    run.absorb(vec![Ok(one(&[]))]).unwrap();
    assert_eq!(run.finish().unwrap_err(), "无有效数据");
}

#[test]
fn the_first_failure_of_a_chunk_is_its_failure() {
    let e = merge_chunk(vec![Ok(one(&[1])), Err("a".to_string()), Err("b".to_string())]);
    assert_eq!(e.unwrap_err(), "a");
    assert!(merge_chunk(vec![]).unwrap().is_none());
    assert!(merge_chunk(vec![Ok(one(&[]))]).unwrap().is_none());
    let merged = merge_chunk(vec![Ok(one(&[1])), Ok(one(&[])), Ok(one(&[2]))]).unwrap().unwrap();
    assert_eq!(cells(&merged), vec![Some(1), Some(2)]);
}

#[test]
fn a_failed_chunk_stops_the_run() {
    let n = 2 * IO_CHUNK_FILES;
    let paths: Vec<String> = (0..n).map(|i| i.to_string()).collect();
    let files: Vec<Result<Vec<u8>, String>> = (0..n).map(|i| Ok(vec![i as u8])).collect();
    let r = read_parse_chunked(&paths, &files, |bytes, path| {
        let i: usize = path.parse().unwrap();
        assert!(i < IO_CHUNK_FILES, "parsed beyond the failed chunk");
        if i == 3 || i == 5 {
            Err(format!("bad {path}"))
        } else {
            Ok(one(&[bytes[0] as i64]))
        }
    });
    assert_eq!(r.unwrap_err(), "bad 3");
}

#[test]
fn batches_come_in_the_order_of_the_files() {
    let n = IO_CHUNK_FILES + 10;
    let paths: Vec<String> = (0..n).map(|i| i.to_string()).collect();
    let files: Vec<Result<Vec<u8>, String>> = (0..n).map(|_| Ok(Vec::new())).collect();
    let out = read_parse_chunked(&paths, &files, |_, path| Ok(one(&[path.parse().unwrap()]))).unwrap();
    let all: Vec<Option<i64>> = out.iter().flat_map(cells).collect();
    assert_eq!(all, (0..n as i64).map(Some).collect::<Vec<_>>());
}

#[test]
fn a_failed_run_is_not_aligned() {
    assert_eq!(align_run(Err("x".to_string())).unwrap_err(), "x");
    let (fields, out) = align_run(Ok(vec![one(&[1]), one(&[2])])).unwrap();
    assert_eq!((fields.len(), out.len()), (1, 2));
}
