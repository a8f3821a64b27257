use solar_log::dispatcher::Dispatcher;
use solar_log::ingest::IngestError;
use solar_log::record::Record;

fn names(list: &[&str]) -> Vec<String> {
    list.iter().map(|s| s.to_string()).collect()
}

fn sample(t: i64) -> Record {
    Record { timestamp_ms: t, current_ua: t + 1, voltage_uv: t + 2 }
}

fn sorted_fields(records: &[Record]) -> Vec<(i64, i64, i64)> {
    let mut all: Vec<(i64, i64, i64)> =
        records.iter().map(|r| (r.timestamp_ms, r.current_ua, r.voltage_uv)).collect();
    all.sort();
    all
}

#[test]
fn new_dispatcher_is_empty() {
    let mut disp = Dispatcher::new();
    assert_eq!(disp.file_count(), 0);
    assert_eq!(disp.record_count(), 0);
    assert!(disp.get_next_job().is_none());
}

#[test]
fn only_log_files_are_queued() {
    let mut disp = Dispatcher::new();
    disp.set_log_dir(&names(&[
        "logs/a.log.xz",
        "logs/readme.txt",
        "logs/b.log.xz",
        "logs/c.log",
        "logs/.log.xz",
        "logs/d.log.xz.bak",
        "log.xz",
    ]));
    assert_eq!(disp.file_count(), 3);
    assert_eq!(disp.get_next_job().unwrap(), "logs/a.log.xz");
    assert_eq!(disp.get_next_job().unwrap(), "logs/b.log.xz");
    assert_eq!(disp.get_next_job().unwrap(), "logs/.log.xz");
    assert!(disp.get_next_job().is_none());
    assert!(disp.get_next_job().is_none());
    assert_eq!(disp.file_count(), 3);
}

#[test]
fn listing_without_log_files_leaves_the_queue_empty() {
    let mut disp = Dispatcher::new();
    disp.set_log_dir(&names(&["a.txt", "b.xz"]));
    assert_eq!(disp.file_count(), 0);
    assert!(disp.get_next_job().is_none());
}

#[test]
fn batches_are_appended_in_order() {
    let mut disp = Dispatcher::new();
    disp.append_data(&vec![sample(3), sample(1)]);
    disp.append_data(&vec![]);
    disp.append_data(&vec![sample(2)]);
    assert_eq!(disp.record_count(), 3);
    let records = disp.take_records();
    let stamps: Vec<i64> = records.iter().map(|r| r.timestamp_ms).collect();
    assert_eq!(stamps, vec![3, 1, 2]);
    assert_eq!(records[0].current_ua, 4);
    assert_eq!(disp.record_count(), 0);
}

fn run_workers(files: &[&str], workers: usize) -> (Vec<Vec<String>>, Vec<Record>) {
    let mut disp = Dispatcher::new();
    disp.set_log_dir(&names(files));
    let mut received: Vec<Vec<String>> = vec![Vec::new(); workers];
    let mut pending: Vec<Option<Vec<Record>>> = vec![None; workers];
    let mut done = vec![false; workers];
    // workers take turns: one step is either a submission or a request
    while done.iter().any(|d| !d) {
        for w in 0..workers {
            if done[w] {
                continue;
            }
            if let Some(batch) = pending[w].take() {
                disp.append_data(&batch);
                continue;
            }
            match disp.get_next_job() {
                Some(name) => {
                    let base = name.len() as i64 * 1000;
                    let batch: Vec<Record> =
                        (0..name.len() as i64 % 4 + 1).map(|i| sample(base + i)).collect();
                    received[w].push(name);
                    pending[w] = Some(batch);
                },
                None => done[w] = true,
            }
        }
    }
    (received, disp.take_records())
}

#[test]
fn every_file_is_delivered_exactly_once() {
    let files = ["a.log.xz", "bb.log.xz", "ccc.log.xz", "dddd.log.xz", "eeeee.log.xz"];
    for workers in [1, 2, 8] {
        let (received, _) = run_workers(&files, workers);
        let total: usize = received.iter().map(|r| r.len()).sum();
        assert_eq!(total, files.len());
        let mut all: Vec<String> = received.into_iter().flatten().collect();
        all.sort();
        let mut expected: Vec<String> = names(&files);
        expected.sort();
        assert_eq!(all, expected);
    }
}

#[test]
fn gathered_records_do_not_depend_on_the_number_of_workers() {
    let files = ["a.log.xz", "bb.log.xz", "ccc.log.xz", "dddd.log.xz", "eeeee.log.xz"];
    let (_, one) = run_workers(&files, 1);
    let (_, two) = run_workers(&files, 2);
    let (_, eight) = run_workers(&files, 8);
    assert_eq!(one.len(), 1 + 2 + 3 + 4 + 1);
    assert_eq!(sorted_fields(&one), sorted_fields(&two));
    assert_eq!(sorted_fields(&one), sorted_fields(&eight));
}

#[test]
fn empty_queue_is_an_error() {
    let mut disp = Dispatcher::new();
    assert_eq!(disp.check_files(), Err(IngestError::NoLogFiles));
    disp.set_log_dir(&names(&["notes.txt"]));
    assert_eq!(disp.check_files(), Err(IngestError::NoLogFiles));
    disp.set_log_dir(&names(&["a.log.xz"]));
    assert_eq!(disp.check_files(), Ok(()));
    disp.get_next_job();
    assert_eq!(disp.check_files(), Ok(()));
}
