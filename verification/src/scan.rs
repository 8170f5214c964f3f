//! Finding btrfs filesystems on the machine's block devices.

use vstd::prelude::*;
use vstd::string::*;

use crate::disk::{superblock_of, Superblock, SuperblockView};
use crate::error::{plain, Error, ErrorKind, ErrorView};
use crate::model::{lemma_views_push, views};
use crate::report::{uuid, uuid_text};
use crate::text::{chars_of, dec, debug_text, number, quoted, string_of, Text};

verus! {

/// A filesystem that was found.
pub struct Found {
    pub device: String,
    pub label: String,
    pub uuid: String,
    pub total_bytes: u64,
    pub bytes_used: u64,
    pub num_devices: u64,
}

#[verifier::ext_equal]
pub struct FoundView {
    pub device: Seq<char>,
    pub label: Seq<char>,
    pub uuid: Seq<char>,
    pub total_bytes: u64,
    pub bytes_used: u64,
    pub num_devices: u64,
}

impl View for Found {
    type V = FoundView;

    open spec fn view(&self) -> FoundView {
        FoundView {
            device: self.device@,
            label: self.label@,
            uuid: self.uuid@,
            total_bytes: self.total_bytes,
            bytes_used: self.bytes_used,
            num_devices: self.num_devices,
        }
    }
}

/// What a scan came to.
pub struct ScanResult {
    pub filesystems: Vec<Found>,
    /// Devices that exist but could not be opened; on Windows this means "run elevated".
    pub access_denied: Vec<String>,
}

#[verifier::ext_equal]
pub struct ScanResultView {
    pub filesystems: Seq<FoundView>,
    pub access_denied: Seq<Seq<char>>,
}

impl View for ScanResult {
    type V = ScanResultView;

    open spec fn view(&self) -> ScanResultView {
        ScanResultView {
            filesystems: views(self.filesystems@),
            access_denied: views(self.access_denied@),
        }
    }
}

/// What came of looking at a device.
pub enum Look {
    /// The host denied it.
    Denied,
    /// It could not be opened or read.
    Nothing,
    /// The bytes where a superblock would be.
    Bytes(Vec<u8>),
}

/// A device that was looked at.
pub struct Candidate {
    pub path: String,
    pub look: Look,
}

#[verifier::ext_equal]
pub enum LookView {
    Denied,
    Nothing,
    Bytes(Seq<u8>),
}

#[verifier::ext_equal]
pub struct CandidateView {
    pub path: Seq<char>,
    pub look: LookView,
}

impl View for Candidate {
    type V = CandidateView;

    open spec fn view(&self) -> CandidateView {
        CandidateView {
            path: self.path@,
            look: match self.look {
                Look::Denied => LookView::Denied,
                Look::Nothing => LookView::Nothing,
                Look::Bytes(b) => LookView::Bytes(b@),
            },
        }
    }
}

/// What is told of a filesystem that was found.
pub open spec fn found_of(path: Seq<char>, sb: SuperblockView) -> FoundView {
    FoundView {
        device: path,
        label: sb.label,
        uuid: uuid_text(sb.fsid),
        total_bytes: sb.total_bytes,
        bytes_used: sb.bytes_used,
        num_devices: sb.num_devices,
    }
}

/// The devices with a superblock, and those that were denied, in the order in which they
/// were looked at.
pub open spec fn scanned(s: Seq<CandidateView>) -> ScanResultView
    decreases s.len(),
{
    if s.len() == 0 {
        ScanResultView { filesystems: seq![], access_denied: seq![] }
    } else {
        let front = scanned(s.drop_last());
        let c = s.last();
        match c.look {
            LookView::Denied => ScanResultView {
                access_denied: front.access_denied.push(c.path),
                ..front
            },
            LookView::Nothing => front,
            LookView::Bytes(b) => match superblock_of(b) {
                Err(_) => front,
                Ok(sb) => ScanResultView {
                    filesystems: front.filesystems.push(found_of(c.path, sb)),
                    ..front
                },
            },
        }
    }
}

/// Sorts out the devices that were looked at.
pub fn scan(devices: &Vec<Candidate>) -> (r: ScanResult)
    ensures
        r@ == scanned(views(devices@)),
{
    let ghost all = views(devices@);
    let mut r = ScanResult { filesystems: Vec::new(), access_denied: Vec::new() };
    let mut i: usize = 0;
    assert(all.take(0) =~= seq![]);
    assert(r@ =~= scanned(seq![]));
    while i < devices.len()
        invariant
            i <= devices@.len(),
            all == views(devices@),
            r@ == scanned(all.take(i as int)),
        decreases devices@.len() - i,
    {
        let c = &devices[i];
        let ghost part = all.take(i + 1);
        let ghost before = r@;
        assert(part.drop_last() =~= all.take(i as int));
        assert(part.last() == c@);
        match &c.look {
            Look::Denied => {
                let path = c.path.clone();
                proof {
                    lemma_views_push(r.access_denied@, path);
                }
                r.access_denied.push(path);
            },
            Look::Nothing => {},
            Look::Bytes(b) => {
                if let Ok(sb) = Superblock::parse(b.as_slice()) {
                    let found = Found {
                        device: c.path.clone(),
                        label: sb.label.clone(),
                        uuid: uuid(&sb.fsid),
                        total_bytes: sb.total_bytes,
                        bytes_used: sb.bytes_used,
                        num_devices: sb.num_devices,
                    };
                    proof {
                        lemma_views_push(r.filesystems@, found);
                    }
                    r.filesystems.push(found);
                }
            },
        }
        assert(r@ =~= scanned(part));
        i += 1;
    }
    assert(all.take(i as int) =~= all);
    r
}

/// A line about a filesystem that was found.
pub open spec fn found_text(f: FoundView) -> Seq<char> {
    f.device + "  label="@ + debug_text(f.label) + " uuid="@ + f.uuid + " size="@ + dec(
        f.total_bytes as nat,
    ) + " used="@ + dec(f.bytes_used as nat) + " devices="@ + dec(f.num_devices as nat)
}

impl Found {
    /// A line about this filesystem.
    pub fn line(&self) -> (s: String)
        ensures
            s@ == found_text(self@),
    {
        Text::of(self.device.as_str()).lit("  label=").lit(
            quoted(self.label.as_str()).as_str(),
        ).lit(" uuid=").lit(self.uuid.as_str()).lit(" size=").num(self.total_bytes).lit(
            " used=",
        ).num(self.bytes_used).lit(" devices=").num(self.num_devices).done()
    }
}

/// What is said of devices that could not be opened.
pub open spec fn denied_text(n: nat) -> Seq<char> {
    dec(n) + " devices could not be opened; rerun with admin/root privileges to scan them"@
}

/// How a scan ends: it was denied where devices were, and nothing was found.
pub open spec fn scan_verdict(r: ScanResultView) -> Result<(), ErrorView> {
    if r.access_denied.len() > 0 && r.filesystems.len() == 0 {
        Err(plain(ErrorKind::AccessDenied))
    } else {
        Ok(())
    }
}

impl ScanResult {
    /// What is said of devices that could not be opened, where there are any.
    pub fn denied(&self) -> (r: Option<String>)
        ensures
            match r {
                Some(s) => self@.access_denied.len() > 0 && s@ == denied_text(
                    self@.access_denied.len(),
                ),
                None => self@.access_denied.len() == 0,
            },
    {
        let n: usize = self.access_denied.len();
        if n == 0 {
            None
        } else {
            Some(
                Text::of(number(n as u64, 10).as_str()).lit(
                    " devices could not be opened; rerun with admin/root privileges to scan them",
                ).done(),
            )
        }
    }

    /// How a run ends that has come to this.
    pub fn verdict(&self) -> (r: Result<(), Error>)
        ensures
            match r {
                Ok(_) => scan_verdict(self@) is Ok,
                Err(e) => scan_verdict(self@) == Err::<(), ErrorView>(e@),
            },
    {
        if self.access_denied.len() > 0 && self.filesystems.len() == 0 {
            Err(Error::plain(ErrorKind::AccessDenied))
        } else {
            Ok(())
        }
    }
}

/// The characters that Unicode calls white space.
pub open spec fn is_white(c: char) -> bool {
    ||| '\u{9}' <= c <= '\u{d}'
    ||| c == ' ' || c == '\u{85}' || c == '\u{a0}' || c == '\u{1680}'
    ||| '\u{2000}' <= c <= '\u{200a}'
    ||| c == '\u{2028}' || c == '\u{2029}' || c == '\u{202f}' || c == '\u{205f}' || c == '\u{3000}'
}

fn white(c: char) -> (r: bool)
    ensures
        r == is_white(c),
{
    ('\u{9}' <= c && c <= '\u{d}') || c == ' ' || c == '\u{85}' || c == '\u{a0}' || c == '\u{1680}'
        || ('\u{2000}' <= c && c <= '\u{200a}') || c == '\u{2028}' || c == '\u{2029}' || c
        == '\u{202f}' || c == '\u{205f}' || c == '\u{3000}'
}

/// What has been made of a table of partitions: the number of the line and of the field
/// that a character more would belong to, the text of that field, and the devices so far.
#[verifier::ext_equal]
pub struct TableView {
    pub line: int,
    pub field: int,
    pub word: Seq<char>,
    pub devices: Seq<Seq<char>>,
}

/// The field that was being read has ended. The fourth field of a line past the first two
/// is the name of a device.
pub open spec fn field_ended(t: TableView) -> TableView {
    if t.word.len() == 0 {
        t
    } else {
        TableView {
            line: t.line,
            field: t.field + 1,
            word: seq![],
            devices: if t.line >= 2 && t.field == 3 {
                t.devices.push("/dev/"@ + t.word)
            } else {
                t.devices
            },
        }
    }
}

/// A table of partitions, read up to its end.
pub open spec fn table_of(text: Seq<char>) -> TableView
    decreases text.len(),
{
    if text.len() == 0 {
        TableView { line: 0, field: 0, word: seq![], devices: seq![] }
    } else {
        let t = table_of(text.drop_last());
        let c = text.last();
        if c == '\n' {
            TableView { line: t.line + 1, field: 0, ..field_ended(t) }
        } else if is_white(c) {
            field_ended(t)
        } else {
            TableView { word: t.word.push(c), ..t }
        }
    }
}

/// The devices that a table of partitions names.
pub open spec fn partitions_of(text: Seq<char>) -> Seq<Seq<char>> {
    field_ended(table_of(text)).devices
}

struct Table {
    line: usize,
    field: usize,
    word: Vec<char>,
    devices: Vec<String>,
}

impl Table {
    /// The numbers matter up to the first that says enough.
    spec fn stands_for(self, t: TableView) -> bool {
        &&& self.line == if t.line < 2 {
            t.line
        } else {
            2
        }
        &&& self.field == if t.field < 4 {
            t.field
        } else {
            4
        }
        &&& self.word@ == t.word
        &&& views(self.devices@) == t.devices
    }

    fn end_field(&mut self, Ghost(t): Ghost<TableView>)
        requires
            old(self).stands_for(t),
            t.line >= 0,
            t.field >= 0,
        ensures
            final(self).stands_for(field_ended(t)),
    {
        if self.word.len() > 0 {
            if self.line == 2 && self.field == 3 {
                let name = Text::of("/dev/").lit(string_of(&self.word).as_str()).done();
                proof {
                    lemma_views_push(self.devices@, name);
                }
                self.devices.push(name);
            }
            if self.field < 4 {
                self.field = self.field + 1;
            }
            self.word = Vec::new();
            assert(self.word@ =~= seq![]);
        }
    }
}

proof fn lemma_table_counts(text: Seq<char>)
    ensures
        table_of(text).line >= 0,
        table_of(text).field >= 0,
    decreases text.len(),
{
    if text.len() > 0 {
        lemma_table_counts(text.drop_last());
    }
}

/// The devices that a table of partitions, as Linux keeps it, names.
pub fn partitions(text: &str) -> (r: Vec<String>)
    ensures
        views(r@) == partitions_of(text@),
{
    let all = chars_of(text);
    let mut t = Table { line: 0, field: 0, word: Vec::new(), devices: Vec::new() };
    let mut i: usize = 0;
    assert(all@.take(0) =~= seq![]);
    assert(t.word@ =~= seq![]);
    assert(views(t.devices@) =~= seq![]);
    while i < all.len()
        invariant
            i <= all@.len(),
            t.stands_for(table_of(all@.take(i as int))),
        decreases all@.len() - i,
    {
        let c = all[i];
        let ghost part = all@.take(i + 1);
        let ghost v = table_of(all@.take(i as int));
        assert(part.drop_last() =~= all@.take(i as int));
        assert(part.last() == c);
        proof {
            lemma_table_counts(all@.take(i as int));
        }
        if c == '\n' {
            t.end_field(Ghost(v));
            if t.line < 2 {
                t.line = t.line + 1;
            }
            t.field = 0;
        } else if white(c) {
            t.end_field(Ghost(v));
        } else {
            t.word.push(c);
        }
        i += 1;
    }
    assert(all@.take(i as int) =~= text@);
    proof {
        lemma_table_counts(text@);
    }
    t.end_field(Ghost(table_of(text@)));
    t.devices
}

/// How many disks, and how many partitions of each, are looked at on Windows.
pub const WINDOWS_DISKS: u64 = 32;

pub const WINDOWS_PARTITIONS: u64 = 65;

/// The `n`th device that is looked at on Windows. Partition 0 is the whole disk, which
/// covers a filesystem made without a partition table.
pub open spec fn windows_device(n: int) -> Seq<char> {
    "\\\\.\\Harddisk"@ + dec((n / 65) as nat) + "Partition"@ + dec((n % 65) as nat)
}

/// The devices that are looked at on Windows.
pub fn windows_devices() -> (r: Vec<String>)
    ensures
        views(r@) == Seq::new(2080, |n: int| windows_device(n)),
{
    let mut r: Vec<String> = Vec::new();
    let mut n: u64 = 0;
    assert(views(r@) =~= Seq::new(0, |n: int| windows_device(n)));
    while n < WINDOWS_DISKS * WINDOWS_PARTITIONS
        invariant
            n <= 2080,
            views(r@) == Seq::new(n as nat, |n: int| windows_device(n)),
        decreases 2080 - n,
    {
        let name = Text::of("\\\\.\\Harddisk").num(n / WINDOWS_PARTITIONS).lit("Partition").num(
            n % WINDOWS_PARTITIONS,
        ).done();
        proof {
            lemma_views_push(r@, name);
        }
        r.push(name);
        assert(views(r@) =~= Seq::new((n + 1) as nat, |n: int| windows_device(n)));
        n += 1;
    }
    r
}

} // verus!
