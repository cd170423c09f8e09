use server_rs::args::Args;
use server_rs::process::echo::EchoProcess;
use server_rs::server::worker::{AcceptOutcome, TcpWorker, WorkerAction};
use server_rs::server::{
    endpoint, ListenerOptions, ListenerRegistry, Server, ServerArgs, WorkerInfo,
    ACCEPT_TIMEOUT_SECS,
};
use std::rc::Rc;

#[test]
fn success() {
    let process = EchoProcess {
        prefix: Some("test".to_string()),
    };

    let received = String::from_utf8(process.reply("echo".as_bytes())).unwrap();
    println!("received : {}", received);
    assert_eq!("test: echo".to_string(), received);
    assert_eq!(received.len(), 4 + 6);
    assert_eq!(process.name(), "EchoProcess");
}

#[test]
fn echo_without_prefix() {
    let process = EchoProcess { prefix: None };
    assert_eq!(process.reply(&[0, 255, 10]), vec![0, 255, 10]);
    assert_eq!(process.reply(&[]), Vec::<u8>::new());
}

#[test]
fn default_settings() {
    let args = Args::default();
    assert_eq!(args.port, 10080);
    assert_eq!(args.reserve_port, 10079);
    assert_eq!(args.host, "0.0.0.0");
    assert_eq!(args.worker, 60);
    assert_eq!(args.reserve, 4);
    assert_eq!(args.timeout_ms, 500);
}

#[test]
fn endpoint_names() {
    assert_eq!(endpoint("0.0.0.0", 10080), "0.0.0.0:10080");
    assert_eq!(endpoint("localhost", 0), "localhost:0");
    assert_eq!(endpoint("", 65535), ":65535");
}

#[test]
fn registry_keeps_one_socket_per_endpoint() {
    let mut registry: ListenerRegistry<i32> = ListenerRegistry::new();
    assert_eq!(registry.len(), 0);
    assert_eq!(registry.insert("a:1".to_string(), 3), None);
    assert_eq!(registry.insert("b:2".to_string(), 4), None);
    assert_eq!(registry.insert("c:3".to_string(), 5), None);
    assert_eq!(registry.insert("b:2".to_string(), 6), Some(4));
    assert_eq!(registry.len(), 3);
    assert_eq!(registry.get("a:1"), Some(&3));
    assert_eq!(registry.get("b:2"), Some(&6));
    assert_eq!(registry.get("d:4"), None);
    assert_eq!(registry.others("b:2"), vec![&3, &5]);
    assert_eq!(registry.others("d:4"), vec![&3, &6, &5]);
}

#[test]
fn child_keeps_its_own_listener_only() {
    let mut registry: ListenerRegistry<i32> = ListenerRegistry::new();
    registry.insert("h:1".to_string(), 10);
    registry.insert("h:2".to_string(), 11);
    let worker = TcpWorker {
        timeout_ms: 500,
        listeners: Rc::new(registry),
        host: "h:2".to_string(),
        tcp_process: Rc::new(EchoProcess { prefix: None }),
    };
    assert_eq!(worker.retained(), Some(&11));
    assert_eq!(worker.unused(), vec![&10]);
}

#[test]
fn accept_loop_decisions() {
    let worker = TcpWorker {
        timeout_ms: 750,
        listeners: Rc::new(ListenerRegistry::<i32>::new()),
        host: "h:1".to_string(),
        tcp_process: Rc::new(()),
    };
    assert_eq!(worker.retained(), None);
    assert_eq!(worker.resume(true), WorkerAction::Accept);
    assert_eq!(worker.resume(false), WorkerAction::Exit { code: 0 });
    for running in [true, false] {
        assert_eq!(
            worker.on_accept(AcceptOutcome::Accepted, running),
            WorkerAction::Serve { write_timeout_ms: 750 }
        );
        assert_eq!(
            worker.on_accept(AcceptOutcome::Failed, running),
            WorkerAction::Exit { code: 1 }
        );
    }
    assert_eq!(worker.on_accept(AcceptOutcome::WouldBlock, true), WorkerAction::Accept);
    assert_eq!(
        worker.on_accept(AcceptOutcome::WouldBlock, false),
        WorkerAction::Exit { code: 0 }
    );
}

#[test]
fn server_names_its_endpoints() {
    let process = Rc::new(EchoProcess { prefix: None });
    let server = Server::new(ServerArgs {
        worker_infos: vec![
            WorkerInfo { host: "0.0.0.0".to_string(), port: 10080, worker: 60, process: process.clone() },
            WorkerInfo { host: "0.0.0.0".to_string(), port: 10079, worker: 4, process },
        ],
        timeout_ms: 500,
    });
    assert_eq!(server.endpoints(), vec!["0.0.0.0:10080", "0.0.0.0:10079"]);
    assert_eq!(server.config().timeout_ms, 500);
    assert_eq!(
        server.listener_options(),
        ListenerOptions { reuse_address: true, reuse_port: true, accept_timeout_secs: 2 }
    );
    assert_eq!(ACCEPT_TIMEOUT_SECS, 2);
}
