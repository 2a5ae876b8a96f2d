use vstd::prelude::*;

verus! {

/// One physical file: every path found for one (device, inode) pair, with
/// the size and link count last observed for it.
#[derive(Debug)]
pub struct DedupFile {
    pub paths: Vec<String>,
    pub size: u64,
    pub device: u64,
    pub inode: u64,
    pub nlink: u64,
}

/// The mathematical value of a [`DedupFile`].
pub struct FileView {
    pub paths: Seq<Seq<char>>,
    pub size: u64,
    pub device: u64,
    pub inode: u64,
    pub nlink: u64,
}

impl View for DedupFile {
    type V = FileView;

    open spec fn view(&self) -> FileView {
        FileView {
            paths: self.paths@.map_values(|p: String| p@),
            size: self.size,
            device: self.device,
            inode: self.inode,
            nlink: self.nlink,
        }
    }
}

impl FileView {
    /// A record always names at least one path.
    pub open spec fn wf(self) -> bool {
        self.paths.len() > 0
    }

    /// The (device, inode) pair that identifies the physical file.
    pub open spec fn id(self) -> (u64, u64) {
        (self.device, self.inode)
    }

    /// The path by which the file's content is read.
    pub open spec fn key(self) -> Seq<char> {
        self.paths[0]
    }
}

impl DedupFile {
    /// A record of one path, as the directory walker makes it.
    pub fn new(path: String, size: u64, device: u64, inode: u64, nlink: u64) -> (r: DedupFile)
        ensures
            r@.paths == seq![path@],
            r.size == size,
            r.device == device,
            r.inode == inode,
            r.nlink == nlink,
    {
        let mut paths: Vec<String> = Vec::new();
        paths.push(path);
        proof {
            assert(paths@.map_values(|p: String| p@) =~= seq![path@]);
        }
        DedupFile { paths, size, device, inode, nlink }
    }

    /// The path by which the file's content is read.
    pub fn key_path(&self) -> (r: &String)
        requires
            self@.wf(),
        ensures
            r@ == self@.key(),
    {
        &self.paths[0]
    }
}

} // verus!
