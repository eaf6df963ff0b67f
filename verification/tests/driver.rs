use ycsb::client::{
    db_supported, worker_share, workload_supported, Client, ClientProperties, ProgressCounter,
};
use ycsb::db::StdBTreeMapMutex;
use ycsb::workloads::{CoreWorkload, Properties};

fn shares(total: u64, t: u32) -> Vec<u64> {
    (0..t).map(|i| worker_share(total, t, i)).collect()
}

#[test]
fn partition_sums_to_total() {
    for (total, t) in [(1000u64, 4u32), (10, 3), (0, 5), (7, 1), (5, 8), (1, 2)] {
        let s = shares(total, t);
        assert_eq!(s.iter().sum::<u64>(), total);
        let max = *s.iter().max().unwrap();
        let min = *s.iter().min().unwrap();
        assert!(max - min <= 1);
    }
}

#[test]
fn partition_exact_values() {
    assert_eq!(shares(1000, 4), vec![250, 250, 250, 250]);
    assert_eq!(shares(10, 3), vec![4, 3, 3]);
    assert_eq!(shares(5, 8), vec![1, 1, 1, 1, 1, 0, 0, 0]);
}

#[test]
fn progress_counter_increments_and_resets() {
    let mut c = ProgressCounter::new();
    assert_eq!(c.get(), 0);
    c.increment();
    c.increment();
    assert_eq!(c.get(), 2);
    c.reset();
    assert_eq!(c.get(), 0);
}

#[test]
fn selection_strings() {
    assert!(workload_supported(&"core".to_string()));
    assert!(!workload_supported(&"other".to_string()));
    assert!(db_supported(&"std_btreemap_mutex".to_string()));
    assert!(!db_supported(&"redis".to_string()));
}

#[test]
fn end_to_end_load_phase() {
    let client_props = ClientProperties { operation_count: 0, record_count: 1000 };
    let mut workload = CoreWorkload::new(Properties::default()).unwrap();
    let mut engine = StdBTreeMapMutex::new();
    let thread_count = 4u32;

    let mut clients: Vec<Client> = (0..thread_count)
        .map(|i| Client::new(client_props.clone(), i, thread_count))
        .collect();

    for c in clients.iter_mut() {
        c.init_workload(&workload);
        c.init_database();
        c.setup_initial_data(&mut workload, &mut engine);
    }

    assert_eq!(engine.db.len(), 1000);
    let total: u64 = clients.iter().map(|c| c.progress()).sum();
    assert_eq!(total, 1000);

    for c in clients.iter_mut() {
        c.reset_progress();
        assert_eq!(c.progress(), 0);
    }

    for c in clients.iter_mut() {
        c.benchmark();
        assert_eq!(c.progress(), 0);
    }
}

#[test]
fn load_phase_ordered_keys_present() {
    let client_props = ClientProperties { operation_count: 0, record_count: 10 };
    let mut p = Properties::default();
    p.insert_order = "ordered".to_string();
    p.zero_padding = 4;
    p.field_count = 2;
    p.field_length = 4;
    let mut workload = CoreWorkload::new(p).unwrap();
    let mut engine = StdBTreeMapMutex::new();
    let mut c = Client::new(client_props, 0, 1);
    c.setup_initial_data(&mut workload, &mut engine);
    assert_eq!(engine.db.len(), 10);
    assert_eq!(c.progress(), 10);
    for n in 0..10 {
        let key = format!("user000{}", n);
        let row = engine.db.get(&key).unwrap();
        assert_eq!(row.len(), 2);
        assert_eq!(row[0].as_ref().unwrap().len(), 4);
        assert_eq!(row[1].as_ref().unwrap().len(), 4);
    }
}
