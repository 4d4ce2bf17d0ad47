use spaceinsight::crawler::should_skip_path;

#[test]
fn test_skip_abnormal_docker_vm_path() {
    let docker_vm_file = "/Users/demo/Library/Containers/com.docker.docker/Data/vms/0/data/Docker.raw";
    let normal_file = "/Users/demo/Documents/test.txt";

    assert!(should_skip_path(docker_vm_file));
    assert!(!should_skip_path(normal_file));
}

#[test]
fn skip_needs_every_component_in_order() {
    assert!(should_skip_path("/Library/Containers/com.docker.docker/Data/vms"));
    assert!(should_skip_path("/Library/x/Containers/y/com.docker.docker/Data/z/vms/disk"));
    assert!(!should_skip_path("/Library/Containers/com.docker.docker/Data"));
    assert!(!should_skip_path("/Containers/Library/com.docker.docker/Data/vms"));
    assert!(!should_skip_path("/Library/Containers/com.docker.dockerX/Data/vms"));
    assert!(!should_skip_path(""));
}
