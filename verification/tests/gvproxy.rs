use net_proxy::gvproxy::{local_socket_path, vfkit_magic};

#[test]
fn magic_and_path() {
    assert_eq!(&vfkit_magic(), b"VFKT");
    assert_eq!(local_socket_path("/tmp/gv.sock"), "/tmp/gv.sock-krun.sock");
}
