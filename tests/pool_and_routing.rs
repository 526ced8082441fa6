use http_impl_demo::request::{get_host, route, upload_links, Method, Request};
use http_impl_demo::thread_pool::{JobQueue, Message};
use http_impl_demo::Opts;

#[test]
fn routes_known_methods() {
    assert_eq!(route(b"GET"), Some(Method::Get));
    assert_eq!(route(b"POST"), Some(Method::Post));
    assert_eq!(route(b"PATCH"), Some(Method::Patch));
    assert_eq!(route(b"DELETE"), Some(Method::Delete));
    assert_eq!(route(b"PUT"), None);
    assert_eq!(route(b"get"), None);
}

fn opts() -> Opts {
    Opts {
        port: 7878,
        host: "127.0.0.1".to_string(),
        directory: ".".to_string(),
    }
}

#[test]
fn host_from_header_or_options() {
    let with = Request::from_bytes(b"POST / HTTP/1.1\r\nHost: example.org\r\n\r\nx").unwrap();
    assert_eq!(get_host(&with, &opts()), b"example.org".to_vec());
    let without = Request::from_bytes(b"POST / HTTP/1.1\r\nA: b\r\n\r\nx").unwrap();
    assert_eq!(get_host(&without, &opts()), b"127.0.0.1:7878".to_vec());
}

#[test]
fn links_one_per_line() {
    let paths = vec![b"up/a.txt".to_vec(), b"up/b.txt".to_vec()];
    assert_eq!(
        upload_links(b"h:1", &paths),
        b"http://h:1/up/a.txt\nhttp://h:1/up/b.txt\n".to_vec()
    );
    assert_eq!(upload_links(b"h", &Vec::new()), b"\n".to_vec());
}

#[test]
fn queue_delivers_each_job_once_then_terminates() {
    let mut q: JobQueue<u32> = JobQueue::new();
    for j in 0..5u32 {
        q.execute(j);
    }
    q.terminate_all(3);
    assert_eq!(q.len(), 8);
    let mut ran = Vec::new();
    let mut alive = 3;
    while let Some(m) = q.receive() {
        match m {
            Message::NewJob(j) => ran.push(j),
            Message::Terminate => {
                assert!(alive > 0);
                alive -= 1;
            }
        }
    }
    assert_eq!(ran, vec![0, 1, 2, 3, 4]);
    assert_eq!(alive, 0);
    assert!(q.receive().is_none());
}
