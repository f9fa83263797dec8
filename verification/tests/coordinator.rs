//! Machines and their work.

use shrestidb::distributed::coordinator::{QueryCoordinator, WorkerInfo};

#[test]
fn test_coordinator_creation() {
    let coordinator = QueryCoordinator::new(1);
    assert_eq!(coordinator.coordinator_id, 1);
    assert_eq!(coordinator.workers.len(), 0);
}

#[test]
fn test_worker_registration() {
    let mut coordinator = QueryCoordinator::new(1);
    let worker = WorkerInfo {
        id: 1,
        host: "localhost".to_string(),
        port: 5432,
        cpu_cores: 8,
        memory_gb: 16,
    };

    coordinator.register_worker(worker);
    assert_eq!(coordinator.workers.len(), 1);
    assert_eq!(coordinator.total_cores(), 8);
}

#[test]
fn test_worker_selection() {
    let mut coordinator = QueryCoordinator::new(1);

    coordinator.register_worker(WorkerInfo {
        id: 1,
        host: "worker1".to_string(),
        port: 5432,
        cpu_cores: 4,
        memory_gb: 8,
    });

    coordinator.register_worker(WorkerInfo {
        id: 2,
        host: "worker2".to_string(),
        port: 5432,
        cpu_cores: 16,
        memory_gb: 32,
    });

    let worker = coordinator.select_worker_for_task("aggregate", 100);
    assert_eq!(worker, Some(2));
}

fn machine(id: u32, cpu_cores: usize, memory_gb: usize) -> WorkerInfo {
    WorkerInfo { id, host: "h".to_string(), port: 1, cpu_cores, memory_gb }
}

#[test]
fn a_machine_takes_the_place_of_one_with_its_id() {
    let mut coordinator = QueryCoordinator::new(1);
    assert_eq!(coordinator.select_worker_for_task("scan", 1), None);
    coordinator.register_worker(machine(7, 4, 8));
    coordinator.register_worker(machine(7, 2, 64));
    coordinator.register_worker(machine(9, 3, 16));
    assert_eq!(coordinator.get_workers().len(), 2);
    assert_eq!((coordinator.total_cores(), coordinator.total_memory_gb()), (5, 80));
    assert_eq!(coordinator.select_worker_for_task("scan", 1), Some(7));
    assert_eq!(coordinator.select_worker_for_task("aggregate", 1), Some(9));
    assert_eq!(coordinator.select_worker_for_task("join", 1), Some(7));
    assert!([7, 9].contains(&coordinator.select_worker_for_task("sort", 1).unwrap()));
}
