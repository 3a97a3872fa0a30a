use ruql::server::Server;
use ruql::server::DEFAULT_PORT;

#[test]
fn test_server_new_default_port() {
    let s = Server::new();
    assert_eq!(s.port, 7878);
    assert_eq!(s.port, DEFAULT_PORT);
}
