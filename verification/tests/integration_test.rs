use binsync::{sync, Directory};
use rand::Rng;
use sha2::{Digest, Sha256};

struct TestContext {
    source: Directory,
    destination: Directory,
}

impl TestContext {
    fn new() -> TestContext {
        TestContext { source: Directory::new(), destination: Directory::new() }
    }

    fn side(&mut self, path: &str) -> (&mut Directory, String) {
        if let Some(rest) = path.strip_prefix("in/") {
            (&mut self.source, rest.to_string())
        } else if let Some(rest) = path.strip_prefix("out/") {
            (&mut self.destination, rest.to_string())
        } else {
            panic!("a test path starts with in/ or out/: {}", path);
        }
    }

    fn write_file(&mut self, path: &str, size: u64) {
        let mut rng = rand::thread_rng();
        let mut contents = vec![0u8; usize::try_from(size).unwrap()];
        rng.fill(&mut contents[..]);
        self.write(path, contents);
    }

    fn write(&mut self, path: &str, contents: Vec<u8>) {
        let (directory, relative) = self.side(path);
        directory.put(relative, contents);
    }

    fn read(&mut self, path: &str) -> Vec<u8> {
        let (directory, relative) = self.side(path);
        directory.get(&relative).unwrap().clone()
    }

    fn copy(&mut self, from: &str, to: &str) {
        let contents = self.read(from);
        self.write(to, contents);
    }

    fn compare_hashes(&mut self, a: &str, b: &str) -> bool {
        let source = self.read(a);
        let dest = self.read(b);

        let mut source_hasher = Sha256::new();
        source_hasher.update(source);

        let mut dest_hasher = Sha256::new();
        dest_hasher.update(dest);

        source_hasher.finalize() == dest_hasher.finalize()
    }

    fn sync(&mut self) {
        sync(&self.source, &mut self.destination).unwrap();
    }
}

/// Tests a basic copy and paste. No file exists at the destination.
#[test]
fn test_empty_destination() {
    let mut context = TestContext::new();

    context.write_file("in/test.bin", 1048576);

    context.sync();

    assert!(context.compare_hashes("in/test.bin", "out/test.bin"));
}

/// Writes a file deep into a folder hierarchy that the destination does not
/// have yet.
#[test]
fn test_empty_destination_complex() {
    let mut context = TestContext::new();

    context.write_file("in/foo/bar/baz/test.bin", 1048576);

    context.sync();

    assert!(context.compare_hashes("in/foo/bar/baz/test.bin", "out/foo/bar/baz/test.bin"));
}

/// The destination file is unrelated to the source file and longer: it has to
/// be rewritten and cut off.
#[test]
fn test_rand_destination() {
    let mut context = TestContext::new();

    context.write_file("in/test.bin", 1048576);
    context.write_file("out/test.bin", 1048677);

    context.sync();

    assert!(context.compare_hashes("in/test.bin", "out/test.bin"));
    assert_eq!(context.read("out/test.bin").len(), 1048576);
}

/// Two files that are the same: nothing has to be copied.
#[test]
fn test_copy_destination() {
    let mut context = TestContext::new();

    context.write_file("in/test.bin", 1048576);
    context.copy("in/test.bin", "out/test.bin");

    context.sync();

    assert!(context.compare_hashes("in/test.bin", "out/test.bin"));
}

/// The source holds the destination's data embedded inside itself, so that
/// chunks have to be copied from other places of the destination file.
#[test]
fn test_copy_destination_padded() {
    let mut context = TestContext::new();

    context.write_file("in/test.bin", 1048576);
    context.copy("in/test.bin", "out/test.bin");

    let mut data = context.read("in/test.bin");
    let mut copy = data.clone();
    let mut copy2 = copy.split_off(copy.len() / 2);

    copy2.append(&mut data);
    copy2.append(&mut copy);
    context.write("in/test.bin", copy2);

    context.sync();

    assert!(context.compare_hashes("in/test.bin", "out/test.bin"));
}
