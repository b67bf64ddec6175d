use drust_apps::conf::Conf;
use drust_apps::schedule::{compute_slots, entries_per_server, tasks, Task};
use drust_apps::socialnet_stub::media::Image;

fn conf(num_servers: usize, thread_num: usize) -> Conf<fn(usize) -> usize> {
    Conf {
        hash: |key| key,
        bucket_num: 16,
        num_servers,
        thread_num,
        unit_bucket_num: 8,
        unit_thread_bucket_num: 4,
        read_ratio: 9,
        global_heap_start: 1000,
        worker_unit_size: 50,
    }
}

#[test]
fn tasks_come_server_by_server() {
    let expected = vec![
        Task { server: 0, thread: 0, home: 1000 },
        Task { server: 0, thread: 1, home: 1000 },
        Task { server: 0, thread: 2, home: 1000 },
        Task { server: 1, thread: 0, home: 1050 },
        Task { server: 1, thread: 1, home: 1050 },
        Task { server: 1, thread: 2, home: 1050 },
    ];
    assert_eq!(tasks(&conf(2, 3)), expected);
    assert_eq!(compute_slots(&conf(2, 3)), 6);
}

#[test]
fn every_thread_has_one_task() {
    let all = tasks(&conf(3, 5));
    for server in 0..3 {
        for thread in 0..5 {
            let found = all.iter().filter(|t| t.server == server && t.thread == thread).count();
            assert_eq!(found, 1);
        }
    }
    assert_eq!(all.len(), 15);
}

#[test]
fn no_servers_or_threads_no_tasks() {
    assert!(tasks(&conf(0, 3)).is_empty());
    assert!(tasks(&conf(3, 0)).is_empty());
    assert_eq!(compute_slots(&conf(0, 3)), 0);
}

#[test]
fn only_placed_servers_need_an_address() {
    let conf = Conf { worker_unit_size: usize::MAX - 1000, ..conf(2, 1) };
    let homes: Vec<usize> = tasks(&conf).iter().map(|task| task.home).collect();
    assert_eq!(homes, vec![1000, usize::MAX]);
}

#[test]
fn graph_nodes_are_shared_among_servers() {
    assert_eq!(entries_per_server(&conf(1, 1)), 2097152);
    assert_eq!(entries_per_server(&conf(8, 1)), 262144);
    assert_eq!(entries_per_server(&conf(3, 1)), 699050);
}

#[test]
fn default_image_has_no_pixels() {
    let image = Image::default();
    assert_eq!((image.width, image.height), (0, 0));
    assert!(image.pixels.is_empty());
    let copy = Image { width: 2, height: 1, pixels: vec![1, 2] }.clone();
    assert_eq!((copy.width, copy.height, copy.pixels), (2, 1, vec![1, 2]));
}
