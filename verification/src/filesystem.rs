//! The mounted filesystems, and bringing them all to stable storage.
use vstd::prelude::*;
use vstd::string::*;

use crate::error::{Error, Result};
use crate::order::{comes_before, lemma_text_before_irreflexive, lemma_text_before_total, lemma_text_before_transitive, smaller, text_before};
use crate::pipe::taken;
use crate::simplefs::image_order::in_order;
use crate::text::{chars_of, str_eq};

verus! {

/// A mounted volume.
pub struct MountPoint<V> {
    pub path: String,
    pub fs: V,
}

/// Everything mounted, in the order of the paths.
pub struct FileSystem<V> {
    pub mounted_fs: Vec<MountPoint<V>>,
}

impl<V> FileSystem<V> {
    /// Whether the mounts are in the order of their paths, and no path is taken twice.
    pub open spec fn in_order(&self) -> bool {
        forall|i: int, j: int|
            #![trigger self.mounted_fs@[i], self.mounted_fs@[j]]
            0 <= i < j < self.mounted_fs@.len() ==> text_before(
                self.mounted_fs@[i].path@,
                self.mounted_fs@[j].path@,
            )
    }

    /// Whether something is mounted under a path.
    pub open spec fn taken(&self, path: Seq<char>) -> bool {
        exists|i: int|
            #![trigger self.mounted_fs@[i]]
            0 <= i < self.mounted_fs@.len() && self.mounted_fs@[i].path@ == path
    }

    /// Nothing is mounted yet.
    pub fn new() -> (r: Self)
        ensures
            r.mounted_fs@.len() == 0,
            r.in_order(),
    {
        FileSystem { mounted_fs: Vec::new() }
    }

    /// Mounts a volume at its place among the others.
    pub fn add_mount(&mut self, mount: MountPoint<V>) -> (r: Result<()>)
        requires
            old(self).in_order(),
        ensures
            final(self).in_order(),
            if old(self).taken(mount.path@) {
                r == Err::<(), Error>(Error::AlreadyExists) && final(self).mounted_fs@ == old(
                    self,
                ).mounted_fs@
            } else {
                r is Ok && exists|at: int|
                    0 <= at <= old(self).mounted_fs@.len() && final(self).mounted_fs@ == #[trigger] old(
                        self,
                    ).mounted_fs@.insert(at, mount)
            },
    {
        let path = chars_of(mount.path.as_str());
        let mut at: usize = 0;
        while at < self.mounted_fs.len() && comes_before(
            &chars_of(self.mounted_fs[at].path.as_str()),
            &path,
        )
            invariant
                *self == *old(self),
                self.in_order(),
                path@ == mount.path@,
                at <= self.mounted_fs@.len(),
                forall|i: int|
                    #![trigger self.mounted_fs@[i]]
                    0 <= i < at ==> text_before(self.mounted_fs@[i].path@, path@),
            ensures
                at < self.mounted_fs@.len() ==> !text_before(
                    self.mounted_fs@[at as int].path@,
                    path@,
                ),
            decreases self.mounted_fs@.len() - at,
        {
            at = at + 1;
        }
        let ghost all = self.mounted_fs@;
        if at < self.mounted_fs.len() && str_eq(
            self.mounted_fs[at].path.as_str(),
            mount.path.as_str(),
        ) {
            assert(all[at as int].path@ == mount.path@);
            return Err(Error::AlreadyExists);
        }
        proof {
            if at < all.len() {
                lemma_text_before_total(all[at as int].path@, path@);
            }
            assert forall|i: int| #![trigger all[i]] at <= i < all.len() implies text_before(
                path@,
                all[i].path@,
            ) by {
                if i > at {
                    assert(text_before(all[at as int].path@, all[i].path@));
                    lemma_text_before_transitive(path@, all[at as int].path@, all[i].path@);
                }
            }
            lemma_text_before_irreflexive(path@);
            assert(!self.taken(mount.path@));
        }
        self.mounted_fs.insert(at, mount);
        let ghost now = self.mounted_fs@;
        proof {
            assert(now == all.insert(at as int, mount));
            assert forall|i: int, j: int|
                #![trigger now[i], now[j]]
                0 <= i < j < now.len() implies text_before(now[i].path@, now[j].path@) by {
                if j < at {
                    assert(now[i] == all[i] && now[j] == all[j]);
                } else if j == at {
                    assert(now[i] == all[i]);
                } else if i < at {
                    assert(now[i] == all[i] && now[j] == all[j - 1]);
                } else if i == at {
                    assert(now[j] == all[j - 1]);
                } else {
                    assert(now[i] == all[i - 1] && now[j] == all[j - 1]);
                }
            }
        }
        Ok(())
    }
}

/// Which of the filesystems of a kernel serves the whole of it.
pub struct GlobalFs {
    pub installed: Option<usize>,
}

impl GlobalFs {
    /// None yet.
    pub fn new() -> (r: Self)
        ensures
            r.installed is None,
    {
        GlobalFs { installed: None }
    }
}

/// Installs a filesystem as the one that serves.
pub fn install_global(global: &mut GlobalFs, fs: usize)
    ensures
        final(global).installed == Some(fs),
{
    global.installed = Some(fs);
}

/// Removes a filesystem, where it is the one that serves.
pub fn uninstall_global(global: &mut GlobalFs, fs: usize)
    ensures
        final(global).installed == (if old(global).installed == Some(fs) {
            None
        } else {
            old(global).installed
        }),
{
    if let Some(current) = global.installed {
        if current == fs {
            global.installed = None;
        }
    }
}

/// A filesystem that is to be registered under its name and mounted.
#[derive(Debug)]
pub struct MountRequest {
    pub device: &'static str,
    pub path: String,
    pub fs_name: &'static str,
    pub flags: u32,
}

/// The request to mount a filesystem. There must be one that serves the kernel.
pub open spec fn mount_requested(
    global: GlobalFs,
    device: Seq<char>,
    path: Seq<char>,
    fs_name: Seq<char>,
    r: Result<MountRequest>,
) -> bool {
    match global.installed {
        None => r matches Err(e) && e == Error::InternalError,
        Some(_) => r matches Ok(m) && m.device@ == device && m.path@ == path && m.fs_name@
            == fs_name && m.flags == 0,
    }
}

/// Asks for a filesystem to be mounted.
pub fn request_mount(
    global: &GlobalFs,
    device: &'static str,
    path: &str,
    fs_name: &'static str,
) -> (r: Result<MountRequest>)
    ensures
        mount_requested(*global, device@, path@, fs_name@, r),
{
    match global.installed {
        None => Err(Error::InternalError),
        Some(_) => Ok(MountRequest { device, path: path.to_owned(), fs_name, flags: 0 }),
    }
}

/// Whether the first `n` volumes were brought to stable storage.
pub open spec fn brought<V, F: Fn(&V) -> Result<()>>(
    mounts: Seq<MountPoint<V>>,
    sync: F,
    n: int,
) -> bool {
    forall|i: int|
        #![trigger mounts[i]]
        0 <= i < n ==> call_ensures(sync, (&mounts[i].fs,), Ok::<(), Error>(()))
}

/// Whether volumes were brought to stable storage up to one that failed.
pub open spec fn failed_at<V, F: Fn(&V) -> Result<()>>(
    mounts: Seq<MountPoint<V>>,
    sync: F,
    n: int,
    e: Error,
) -> bool {
    &&& 0 <= n < mounts.len()
    &&& brought(mounts, sync, n)
    &&& call_ensures(sync, (&mounts[n].fs,), Err::<(), Error>(e))
}

/// Whether volumes can be handed to a function.
pub open spec fn accepts<V, F: Fn(&V) -> Result<()>>(mounts: Seq<MountPoint<V>>, sync: F) -> bool {
    forall|i: int|
        #![trigger mounts[i]]
        0 <= i < mounts.len() ==> call_requires(sync, (&mounts[i].fs,))
}

fn sync_each<V, F: Fn(&V) -> Result<()>>(mounts: &Vec<MountPoint<V>>, sync: &F) -> (r: Result<()>)
    requires
        accepts(mounts@, *sync),
    ensures
        match r {
            Ok(_) => brought(mounts@, *sync, mounts@.len() as int),
            Err(e) => exists|n: int| #[trigger] failed_at(mounts@, *sync, n, e),
        },
{
    let mut i: usize = 0;
    while i < mounts.len()
        invariant
            i <= mounts@.len(),
            accepts(mounts@, *sync),
            brought(mounts@, *sync, i as int),
        decreases mounts@.len() - i,
    {
        match sync(&mounts[i].fs) {
            Ok(u) => {
                assert(u == ());
            },
            Err(e) => {
                assert(failed_at(mounts@, *sync, i as int, e));
                return Err(e);
            },
        }
        i = i + 1;
    }
    Ok(())
}

/// The outcome of bringing the filesystem that serves to stable storage: every volume in
/// order, up to the first that fails. Without one there is nothing to do.
pub open spec fn sync_outcome<V, F: Fn(&V) -> Result<()>>(
    global: Option<FileSystem<V>>,
    sync: F,
    r: Result<()>,
) -> bool {
    match global {
        None => r is Ok,
        Some(fs) => match r {
            Ok(_) => brought(fs.mounted_fs@, sync, fs.mounted_fs@.len() as int),
            Err(e) => exists|n: int| #[trigger] failed_at(fs.mounted_fs@, sync, n, e),
        },
    }
}

/// The filesystem that serves, among those of the kernel.
pub open spec fn serving<V>(global: GlobalFs, all: Seq<FileSystem<V>>) -> Option<FileSystem<V>> {
    match global.installed {
        Some(k) => if k < all.len() {
            Some(all[k as int])
        } else {
            None
        },
        None => None,
    }
}

/// Brings all data and metadata of every volume to stable storage, with the function that
/// does so for one.
pub fn sync_global_all<V, F: Fn(&V) -> Result<()>>(
    global: &GlobalFs,
    all: &Vec<FileSystem<V>>,
    sync: &F,
) -> (r: Result<()>)
    requires
        serving(*global, all@) matches Some(fs) ==> accepts(fs.mounted_fs@, *sync),
    ensures
        sync_outcome(serving(*global, all@), *sync, r),
{
    match global.installed {
        Some(k) if k < all.len() => sync_each(&all[k].mounted_fs, sync),
        _ => Ok(()),
    }
}

/// Brings the data of files of every volume to stable storage, with the function that does
/// so for one.
pub fn sync_global_data<V, F: Fn(&V) -> Result<()>>(
    global: &GlobalFs,
    all: &Vec<FileSystem<V>>,
    sync_data: &F,
) -> (r: Result<()>)
    requires
        serving(*global, all@) matches Some(fs) ==> accepts(fs.mounted_fs@, *sync_data),
    ensures
        sync_outcome(serving(*global, all@), *sync_data, r),
{
    match global.installed {
        Some(k) if k < all.len() => sync_each(&all[k].mounted_fs, sync_data),
        _ => Ok(()),
    }
}

/// The sum of counts, as far as it can be counted.
pub open spec fn count_sum(counts: Seq<usize>) -> int
    decreases counts.len(),
{
    if counts.len() == 0 {
        0
    } else {
        smaller(count_sum(counts.drop_last()) + counts.last(), usize::MAX as int)
    }
}

/// Whether these counts came back for the first volumes.
pub open spec fn written_back<V, F: Fn(&V, u64) -> Result<usize>>(
    mounts: Seq<MountPoint<V>>,
    flush: F,
    age: u64,
    counts: Seq<usize>,
) -> bool {
    &&& counts.len() <= mounts.len()
    &&& forall|i: int|
        #![trigger counts[i]]
        0 <= i < counts.len() ==> call_ensures(
            flush,
            (&mounts[i].fs, age),
            Ok::<usize, Error>(counts[i]),
        )
}

/// Whether the volume after these counts failed.
pub open spec fn write_back_failed<V, F: Fn(&V, u64) -> Result<usize>>(
    mounts: Seq<MountPoint<V>>,
    flush: F,
    age: u64,
    counts: Seq<usize>,
    e: Error,
) -> bool {
    &&& written_back(mounts, flush, age, counts)
    &&& counts.len() < mounts.len()
    &&& call_ensures(
        flush,
        (&mounts[counts.len() as int].fs, age),
        Err::<usize, Error>(e),
    )
}

/// Whether every volume gave a count, with a sum.
pub open spec fn write_back_done<V, F: Fn(&V, u64) -> Result<usize>>(
    mounts: Seq<MountPoint<V>>,
    flush: F,
    age: u64,
    counts: Seq<usize>,
    total: usize,
) -> bool {
    &&& written_back(mounts, flush, age, counts)
    &&& counts.len() == mounts.len()
    &&& total == count_sum(counts)
}

/// The outcome of writing back every volume in order, up to the first that fails.
pub open spec fn write_back_outcome<V, F: Fn(&V, u64) -> Result<usize>>(
    mounts: Seq<MountPoint<V>>,
    flush: F,
    age: u64,
    r: Result<usize>,
) -> bool {
    match r {
        Ok(total) => exists|counts: Seq<usize>|
            #[trigger] write_back_done(mounts, flush, age, counts, total),
        Err(e) => exists|counts: Seq<usize>|
            #[trigger] write_back_failed(mounts, flush, age, counts, e),
    }
}

/// Whether volumes can be handed to a function with an age.
pub open spec fn accepts_age<V, F: Fn(&V, u64) -> Result<usize>>(
    mounts: Seq<MountPoint<V>>,
    flush: F,
    age: u64,
) -> bool {
    forall|i: int|
        #![trigger mounts[i]]
        0 <= i < mounts.len() ==> call_requires(flush, (&mounts[i].fs, age))
}

fn flush_each<V, F: Fn(&V, u64) -> Result<usize>>(
    mounts: &Vec<MountPoint<V>>,
    flush: &F,
    age_ticks: u64,
) -> (r: Result<usize>)
    requires
        accepts_age(mounts@, *flush, age_ticks),
    ensures
        write_back_outcome(mounts@, *flush, age_ticks, r),
{
    let ghost mut counts: Seq<usize> = Seq::empty();
    let mut total: usize = 0;
    let mut i: usize = 0;
    while i < mounts.len()
        invariant
            i <= mounts@.len(),
            i == counts.len(),
            accepts_age(mounts@, *flush, age_ticks),
            written_back(mounts@, *flush, age_ticks, counts),
            total == count_sum(counts),
        decreases mounts@.len() - i,
    {
        match flush(&mounts[i].fs, age_ticks) {
            Err(e) => {
                assert(write_back_failed(mounts@, *flush, age_ticks, counts, e));
                return Err(e);
            },
            Ok(n) => {
                let ghost before = counts;
                proof {
                    counts = counts.push(n);
                    assert(counts.drop_last() =~= before);
                }
                if n > usize::MAX - total {
                    total = usize::MAX;
                } else {
                    total = total + n;
                }
            },
        }
        i = i + 1;
    }
    let r: Result<usize> = Ok(total);
    assert(write_back_done(mounts@, *flush, age_ticks, counts, r->Ok_0));
    r
}

/// Writes back the blocks of every volume that are older than an age, with the function
/// that does so for one. The result is how many were written.
pub fn sync_global_caches_aged<V, F: Fn(&V, u64) -> Result<usize>>(
    global: &GlobalFs,
    all: &Vec<FileSystem<V>>,
    flush: &F,
    age_ticks: u64,
) -> (r: Result<usize>)
    requires
        serving(*global, all@) matches Some(fs) ==> accepts_age(
            fs.mounted_fs@,
            *flush,
            age_ticks,
        ),
    ensures
        match serving(*global, all@) {
            None => r == Ok::<usize, Error>(0),
            Some(fs) => write_back_outcome(fs.mounted_fs@, *flush, age_ticks, r),
        },
{
    match global.installed {
        Some(k) if k < all.len() => flush_each(&all[k].mounted_fs, flush, age_ticks),
        _ => Ok(0),
    }
}

/// The number of pages written back is the sum over all volumes, as far as it can be counted.
pub proof fn law_pages_add_up(counts: Seq<usize>, n: usize)
    ensures
        count_sum(seq![]) == 0,
        0 <= count_sum(counts) <= usize::MAX,
        count_sum(counts) + n <= usize::MAX ==> count_sum(counts.push(n)) == count_sum(counts) + n,
        count_sum(counts) + n > usize::MAX ==> count_sum(counts.push(n)) == usize::MAX,
    decreases counts.len(),
{
    assert(counts.push(n).drop_last() =~= counts);
    assert(counts.push(n).last() == n);
    if counts.len() > 0 {
        law_pages_add_up(counts.drop_last(), counts.last());
    }
}

/// Where bringing volumes to stable storage came to a good end, it did so for every volume.
pub proof fn law_every_volume_is_brought<V, F: Fn(&V) -> Result<()>>(
    mounts: Seq<MountPoint<V>>,
    sync: F,
    k: int,
)
    requires
        brought(mounts, sync, mounts.len() as int),
        0 <= k < mounts.len(),
    ensures
        call_ensures(sync, (&mounts[k].fs,), Ok::<(), Error>(())),
{
}

} // verus!
