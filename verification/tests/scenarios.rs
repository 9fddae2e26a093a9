//! End-to-end runs of the reconciliation-execution-aggregation
//! sequence against an in-memory store, as the surrounding process
//! would drive it.

use etl_legs::aggregate::{aggregate_year_blobs, keys_in_year, status_json, year_path, years_of, StatusEntry};
use etl_legs::codec::{encode, SchemaVersion};
use etl_legs::etl::etl_load;
use etl_legs::executor::{BoundedExecutor, Policy};
use etl_legs::keys::{PartitionKey, TimePeriod};
use etl_legs::recon::{build_required, reconcile, scan_completed, EntityRef};
use etl_legs::records::{Leg, Position};

/// A minimal in-memory stand-in for the object store: put overwrites,
/// list returns every path under a prefix.
#[derive(Clone, PartialEq)]
struct MemStore {
    blobs: Vec<(Vec<u8>, Vec<u8>)>,
}

impl MemStore {
    fn new() -> Self {
        MemStore { blobs: Vec::new() }
    }

    fn put(&mut self, path: Vec<u8>, data: Vec<u8>) {
        for entry in self.blobs.iter_mut() {
            if entry.0 == path {
                entry.1 = data;
                return;
            }
        }
        self.blobs.push((path, data));
    }

    fn get(&self, path: &[u8]) -> Option<Vec<u8>> {
        self.blobs
            .iter()
            .find(|e| e.0 == path)
            .map(|e| e.1.clone())
    }

    fn list(&self, prefix: &[u8]) -> Vec<Vec<u8>> {
        self.blobs
            .iter()
            .filter(|e| e.0.starts_with(prefix))
            .map(|e| e.0.clone())
            .collect()
    }
}

fn key(entity: &str, year: u16, month: u8) -> PartitionKey {
    PartitionKey::new(entity.as_bytes().to_vec(), TimePeriod::new(year, month))
}

fn has(keys: &[PartitionKey], k: &PartitionKey) -> bool {
    keys.iter()
        .any(|c| c.entity == k.entity && c.period == k.period)
}

/// The upstream source of one run: which keys have raw data, which
/// tasks fail transiently this run, and the legs derived per key.
struct Upstream {
    ready: Vec<PartitionKey>,
    failing: Vec<PartitionKey>,
}

fn legs_for(k: &PartitionKey) -> Vec<Leg> {
    let base = k.period.year as i64 * 100 + k.period.month as i64;
    vec![Leg {
        start: Position {
            time: base,
            lat: base + 1,
            lon: base + 2,
            alt: base + 3,
        },
        end: Position {
            time: base + 4,
            lat: base + 5,
            lon: base + 6,
            alt: base + 7,
        },
        length: base + 8,
    }]
}

/// One full run: build the required set, scan completion, reconcile,
/// execute the remainder tolerantly under a bounded executor, then
/// re-scan and aggregate by year fail-fast, writing the status
/// document only when every year aggregated.
fn run(store: &mut MemStore, entities: &Vec<EntityRef>, years: &Vec<u16>, upstream: &Upstream) {
    let v = SchemaVersion::V2;
    let required = build_required(entities, years, None);
    let listing = store.list(b"leg/v2/data/");
    let (completed, _warnings) = scan_completed(v, &listing);
    let todo = reconcile(&required, &upstream.ready, &completed);

    // execution phase: tolerant, ceiling 50
    let mut exec = BoundedExecutor::new(todo.len(), 50, Policy::Tolerant);
    while !exec.is_complete() {
        while exec.can_start() {
            let idx = exec.start();
            let k = &todo[idx];
            let ok = if has(&upstream.failing, k) {
                false
            } else {
                let (path, blob) = etl_load(v, k, &legs_for(k));
                store.put(path, blob);
                true
            };
            exec.finish(ok);
        }
    }

    // aggregation phase: fail-fast per year
    let listing2 = store.list(b"leg/v2/data/");
    let (completed2, _) = scan_completed(v, &listing2);
    let compreq = reconcile(&required, &completed2, &Vec::new());
    let mut entries = Vec::new();
    let mut all_years_ok = true;
    for year in years_of(&compreq) {
        let year_keys = keys_in_year(&compreq, year);
        let blobs: Vec<Vec<u8>> = year_keys
            .iter()
            .map(|k| store.get(&encode(v, k)).expect("completed key has a blob"))
            .collect();
        match aggregate_year_blobs(&blobs) {
            Ok(rollup) => {
                let path = year_path(v, year);
                store.put(path.clone(), rollup);
                let mut url = b"https://example.net/".to_vec();
                url.extend_from_slice(&path);
                entries.push(StatusEntry {
                    year,
                    to_process: keys_in_year(&required, year).len(),
                    processed: year_keys.len(),
                    url,
                });
            }
            Err(_) => {
                all_years_ok = false;
            }
        }
    }
    if all_years_ok {
        store.put(b"leg/v2/status.json".to_vec(), status_json(&entries));
    }
}

#[test]
fn partial_readiness_executes_only_ready_work() {
    // Required = {(A, Jan-2023), (A, Feb-2023)}; only Jan has data.
    let v = SchemaVersion::V2;
    let jan = key("aaa111", 2023, 1);
    let feb = key("aaa111", 2023, 2);
    let required = vec![jan.dup(), feb.dup()];
    let ready = vec![jan.dup()];
    let mut store = MemStore::new();

    let (completed, _) = scan_completed(v, &store.list(b"leg/v2/data/"));
    assert!(completed.is_empty());
    let todo = reconcile(&required, &ready, &completed);
    assert_eq!(todo.len(), 1);
    assert!(has(&todo, &jan));

    // execute the remainder
    let mut exec = BoundedExecutor::new(todo.len(), 50, Policy::Tolerant);
    while !exec.is_complete() {
        while exec.can_start() {
            let idx = exec.start();
            let (path, blob) = etl_load(v, &todo[idx], &legs_for(&todo[idx]));
            store.put(path, blob);
            exec.finish(true);
        }
    }

    // the Jan partition blob now exists at its encoded path
    assert!(store.get(&encode(v, &jan)).is_some());

    // aggregate and write status
    let (completed2, _) = scan_completed(v, &store.list(b"leg/v2/data/"));
    let compreq = reconcile(&required, &completed2, &Vec::new());
    let years = years_of(&compreq);
    assert_eq!(years, vec![2023]);
    let year_keys = keys_in_year(&compreq, 2023);
    let blobs: Vec<Vec<u8>> = year_keys
        .iter()
        .map(|k| store.get(&encode(v, k)).unwrap())
        .collect();
    let rollup = aggregate_year_blobs(&blobs).unwrap();
    store.put(year_path(v, 2023), rollup);
    let entries = vec![StatusEntry {
        year: 2023,
        to_process: keys_in_year(&required, 2023).len(),
        processed: year_keys.len(),
        url: b"https://example.net/leg/v2/all/year=2023/data.csv".to_vec(),
    }];
    let status = status_json(&entries);
    // the status reflects 2 required, 1 processed
    let text = String::from_utf8(status).unwrap();
    assert!(text.contains("\"2023\":{\"icao_months_to_process\":2,\"icao_months_processed\":1,"));
}

#[test]
fn transient_failure_is_retried_on_the_next_run() {
    let entities = vec![
        EntityRef {
            id: b"aaa111".to_vec(),
            region: b"US".to_vec(),
        },
        EntityRef {
            id: b"bbb222".to_vec(),
            region: b"US".to_vec(),
        },
    ];
    let years = vec![2023u16];
    let a_jan = key("aaa111", 2023, 1);
    let b_mar = key("bbb222", 2023, 3);
    let mut store = MemStore::new();

    // first run: the task for (B, Mar-2023) fails transiently
    let upstream = Upstream {
        ready: vec![a_jan.dup(), b_mar.dup()],
        failing: vec![b_mar.dup()],
    };
    run(&mut store, &entities, &years, &upstream);

    // the run completed; only the successful task landed
    assert!(store.get(&encode(SchemaVersion::V2, &a_jan)).is_some());
    assert!(store.get(&encode(SchemaVersion::V2, &b_mar)).is_none());
    let status = store.get(b"leg/v2/status.json").expect("status written");
    let text = String::from_utf8(status).unwrap();
    assert!(text.contains("\"icao_months_processed\":1,"));

    // the failed key reappears in the remainder of the next run
    let required = build_required(&entities, &years, None);
    let (completed, _) = scan_completed(SchemaVersion::V2, &store.list(b"leg/v2/data/"));
    let todo2 = reconcile(&required, &vec![a_jan.dup(), b_mar.dup()], &completed);
    assert_eq!(todo2.len(), 1);
    assert!(has(&todo2, &b_mar));

    // and a second run with the failure gone completes it
    let upstream2 = Upstream {
        ready: vec![a_jan.dup(), b_mar.dup()],
        failing: Vec::new(),
    };
    run(&mut store, &entities, &years, &upstream2);
    assert!(store.get(&encode(SchemaVersion::V2, &b_mar)).is_some());
}

#[test]
fn rerun_with_unchanged_inputs_changes_nothing() {
    let entities = vec![EntityRef {
        id: b"aaa111".to_vec(),
        region: b"US".to_vec(),
    }];
    let years = vec![2023u16];
    let upstream = Upstream {
        ready: vec![key("aaa111", 2023, 1), key("aaa111", 2023, 2)],
        failing: Vec::new(),
    };
    let mut store = MemStore::new();
    run(&mut store, &entities, &years, &upstream);
    let after_first = store.clone();
    let completed_count = store.list(b"leg/v2/data/").len();

    run(&mut store, &entities, &years, &upstream);
    // byte-identical blobs, no duplicate or renamed entries
    assert!(store == after_first);
    assert_eq!(store.list(b"leg/v2/data/").len(), completed_count);
}

#[test]
fn corrupted_partition_aborts_the_years_aggregate() {
    let entities = vec![EntityRef {
        id: b"aaa111".to_vec(),
        region: b"US".to_vec(),
    }];
    let years = vec![2023u16];
    let jan = key("aaa111", 2023, 1);
    let feb = key("aaa111", 2023, 2);
    let upstream = Upstream {
        ready: vec![jan.dup(), feb.dup()],
        failing: Vec::new(),
    };
    let mut store = MemStore::new();
    run(&mut store, &entities, &years, &upstream);
    let rollup_before = store.get(&year_path(SchemaVersion::V2, 2023)).unwrap();
    let status_before = store.get(b"leg/v2/status.json").unwrap();

    // corrupt one completed partition's blob
    let feb_path = encode(SchemaVersion::V2, &feb);
    let mut blob = store.get(&feb_path).unwrap();
    let n = blob.len();
    blob[n - 2] = b'?';
    store.put(feb_path, blob);

    run(&mut store, &entities, &years, &upstream);
    // the year's rollup and the prior status document are unchanged
    assert_eq!(
        store.get(&year_path(SchemaVersion::V2, 2023)).unwrap(),
        rollup_before
    );
    assert_eq!(store.get(b"leg/v2/status.json").unwrap(), status_before);
}
