//! What is told of a filesystem and of what is in it.

use vstd::prelude::*;
use vstd::string::*;

use crate::copy::{Report, ReportView};
use crate::disk::{
    csum_label, kind_label, mode_is_symlink, profile_label, type_bits, type_label, Chunk,
    ChunkView, Extent, Inode, Superblock, SuperblockView, FT_DIR, FT_SYMLINK,
};
use crate::error::{plain, Error, ErrorKind, ErrorView};
use crate::lookup::Loc;
use crate::model::{lemma_views_push, views};
use crate::names::Host;
use crate::sort::{law_sorted_form_keeps_the_values, sort, Ranked};
use crate::subvol::{Subvol, SubvolView};
use crate::text::{
    chars_of, dec, digit_char, digits, lossy, number, pad_left, padded_left, text_below, utf8_lossy,
    Text,
};
use crate::time::{iso_text, iso_time};

verus! {

/// The byte in two hexadecimal digits.
pub open spec fn hex_byte(b: u8) -> Seq<char> {
    seq![digit_char((b / 16) as nat), digit_char((b % 16) as nat)]
}

/// The bytes in hexadecimal.
pub open spec fn hex(s: Seq<u8>) -> Seq<char>
    decreases s.len(),
{
    if s.len() == 0 {
        seq![]
    } else {
        hex(s.drop_last()) + hex_byte(s.last())
    }
}

/// A UUID as it is written: groups of 4, 2, 2, 2 and 6 bytes.
pub open spec fn uuid_text(b: Seq<u8>) -> Seq<char> {
    hex(b.subrange(0, 4)) + "-"@ + hex(b.subrange(4, 6)) + "-"@ + hex(b.subrange(6, 8)) + "-"@
        + hex(b.subrange(8, 10)) + "-"@ + hex(b.subrange(10, 16))
}

fn hex_of(b: &[u8; 16], from: usize, to: usize) -> (s: String)
    requires
        from <= to <= 16,
    ensures
        s@ == hex(b@.subrange(from as int, to as int)),
{
    let mut s = String::new();
    let mut i: usize = from;
    assert(b@.subrange(from as int, from as int) =~= seq![]);
    assert(s@ =~= seq![]);
    while i < to
        invariant
            from <= i <= to <= 16,
            s@ == hex(b@.subrange(from as int, i as int)),
        decreases to - i,
    {
        let ghost part = b@.subrange(from as int, i + 1);
        assert(part.drop_last() =~= b@.subrange(from as int, i as int));
        let x: u8 = b[i];
        assert(part.last() == x);
        let ghost before = s@;
        s.push(hex_digit(x / 16));
        s.push(hex_digit(x % 16));
        assert(s@ =~= before + hex_byte(x));
        i += 1;
    }
    s
}

fn hex_digit(d: u8) -> (c: char)
    requires
        d < 16,
    ensures
        c == digit_char(d as nat),
{
    if d < 10 {
        (48 + d) as char
    } else {
        (87 + d) as char
    }
}

/// A UUID as it is written.
pub fn uuid(b: &[u8; 16]) -> (s: String)
    ensures
        s@ == uuid_text(b@),
{
    Text::of(hex_of(b, 0, 4).as_str()).lit("-").lit(hex_of(b, 4, 6).as_str()).lit("-").lit(
        hex_of(b, 6, 8).as_str(),
    ).lit("-").lit(hex_of(b, 8, 10).as_str()).lit("-").lit(hex_of(b, 10, 16).as_str()).done()
}

/// The letter of a file's type.
pub open spec fn mode_letter(mode: u32) -> char {
    if type_bits(mode) == 0x4000 {
        'd'
    } else if type_bits(mode) == 0xa000 {
        'l'
    } else if type_bits(mode) == 0x2000 {
        'c'
    } else if type_bits(mode) == 0x6000 {
        'b'
    } else if type_bits(mode) == 0x1000 {
        'p'
    } else if type_bits(mode) == 0xc000 {
        's'
    } else {
        '-'
    }
}

/// The letter where the permission is given, a dash where it is not.
pub open spec fn permission(mode: u32, bit: u32, letter: char) -> char {
    if mode & bit != 0 {
        letter
    } else {
        '-'
    }
}

/// A mode as `ls` shows it: the type, then what owner, group and others may do.
pub open spec fn mode_text(mode: u32) -> Seq<char> {
    seq![
        mode_letter(mode),
        permission(mode, 0x100, 'r'),
        permission(mode, 0x80, 'w'),
        permission(mode, 0x40, 'x'),
        permission(mode, 0x20, 'r'),
        permission(mode, 0x10, 'w'),
        permission(mode, 0x8, 'x'),
        permission(mode, 0x4, 'r'),
        permission(mode, 0x2, 'w'),
        permission(mode, 0x1, 'x'),
    ]
}

fn allowed(mode: u32, bit: u32, letter: char) -> (c: char)
    ensures
        c == permission(mode, bit, letter),
{
    if mode & bit != 0 {
        letter
    } else {
        '-'
    }
}

/// A mode as `ls` shows it.
pub fn mode_string(mode: u32) -> (s: String)
    ensures
        s@ == mode_text(mode),
{
    let kind = match mode & 0xf000 {
        0x4000 => 'd',
        0xa000 => 'l',
        0x2000 => 'c',
        0x6000 => 'b',
        0x1000 => 'p',
        0xc000 => 's',
        _ => '-',
    };
    let mut s = String::new();
    s.push(kind);
    s.push(allowed(mode, 0x100, 'r'));
    s.push(allowed(mode, 0x80, 'w'));
    s.push(allowed(mode, 0x40, 'x'));
    s.push(allowed(mode, 0x20, 'r'));
    s.push(allowed(mode, 0x10, 'w'));
    s.push(allowed(mode, 0x8, 'x'));
    s.push(allowed(mode, 0x4, 'r'));
    s.push(allowed(mode, 0x2, 'w'));
    s.push(allowed(mode, 0x1, 'x'));
    assert(s@ =~= mode_text(mode));
    s
}

/// What is told of one path.
pub struct Details {
    pub path: String,
    /// The type; a subvolume is a type of its own.
    pub ty: String,
    /// The permission bits.
    pub perms: u32,
    /// The permission bits, in octal.
    pub mode: String,
    pub uid: u32,
    pub gid: u32,
    pub size: u64,
    pub nlink: u32,
    pub mtime: String,
    pub inode: u64,
    pub subvolume_id: u64,
    /// Where a symlink leads.
    pub target: Option<String>,
}

#[verifier::ext_equal]
pub struct DetailsView {
    pub path: Seq<char>,
    pub ty: Seq<char>,
    pub perms: u32,
    pub mode: Seq<char>,
    pub uid: u32,
    pub gid: u32,
    pub size: u64,
    pub nlink: u32,
    pub mtime: Seq<char>,
    pub inode: u64,
    pub subvolume_id: u64,
    pub target: Option<Seq<char>>,
}

impl View for Details {
    type V = DetailsView;

    open spec fn view(&self) -> DetailsView {
        DetailsView {
            path: self.path@,
            ty: self.ty@,
            perms: self.perms,
            mode: self.mode@,
            uid: self.uid,
            gid: self.gid,
            size: self.size,
            nlink: self.nlink,
            mtime: self.mtime@,
            inode: self.inode,
            subvolume_id: self.subvolume_id,
            target: match self.target {
                Some(t) => Some(t@),
                None => None,
            },
        }
    }
}

/// The details of the inode `i` at `loc`, shown as `path`; `target` is what was read of a
/// symlink.
pub open spec fn details_of(
    loc: Loc,
    i: Inode,
    path: Seq<char>,
    subvol: bool,
    target: Option<Seq<u8>>,
) -> DetailsView {
    DetailsView {
        path,
        ty: if subvol {
            "subvolume"@
        } else {
            type_label(i.mode)
        },
        perms: i.mode & 0xfff,
        mode: digits((i.mode & 0xfff) as nat, 8),
        uid: i.uid,
        gid: i.gid,
        size: i.size,
        nlink: i.nlink,
        mtime: iso_text(i.mtime_sec as int),
        inode: loc.ino,
        subvolume_id: loc.tree,
        target: if mode_is_symlink(i.mode) {
            match target {
                Some(b) => Some(utf8_lossy(b)),
                None => None,
            }
        } else {
            None
        },
    }
}

/// The details of one path.
pub fn describe(loc: Loc, i: Inode, path: &str, subvol: bool, target: Option<Vec<u8>>) -> (d:
    Details)
    ensures
        d@ == details_of(
            loc,
            i,
            path@,
            subvol,
            match target {
                Some(b) => Some(b@),
                None => None,
            },
        ),
{
    let ty = if subvol {
        "subvolume".to_owned()
    } else {
        i.file_type().to_owned()
    };
    let target = if i.is_symlink() {
        match target {
            Some(b) => Some(lossy(b.as_slice())),
            None => None,
        }
    } else {
        None
    };
    Details {
        path: path.to_owned(),
        ty,
        perms: i.mode & 0xfff,
        mode: number((i.mode & 0xfff) as u64, 8),
        uid: i.uid,
        gid: i.gid,
        size: i.size,
        nlink: i.nlink,
        mtime: iso_time(i.mtime_sec),
        inode: loc.ino,
        subvolume_id: loc.tree,
        target,
    }
}

/// The type bits of a line for `ty`: directory, symlink, or else file.
pub open spec fn line_type(ty: Seq<char>) -> u32 {
    if ty == "dir"@ || ty == "subvolume"@ {
        0x4000
    } else if ty == "symlink"@ {
        0xa000
    } else {
        0x8000
    }
}

/// A line of a long listing.
pub open spec fn line_text(d: DetailsView, name: Seq<char>) -> Seq<char> {
    mode_text(d.perms | line_type(d.ty)) + " "@ + padded_left(dec(d.uid as nat), 5, ' ') + " "@
        + padded_left(dec(d.gid as nat), 5, ' ') + " "@ + padded_left(dec(d.size as nat), 12, ' ')
        + " "@ + d.mtime + " "@ + name + (match d.target {
        Some(t) => " -> "@ + t,
        None => seq![],
    }) + (if d.ty == "subvolume"@ {
        "  [subvolume]"@
    } else {
        seq![]
    })
}

fn aligned(n: u64, width: usize) -> (s: String)
    ensures
        s@ == padded_left(dec(n as nat), width as nat, ' '),
{
    pad_left(number(n, 10).as_str(), width, ' ')
}

/// Whether two texts are the same.
fn same_text(a: &String, b: &str) -> (r: bool)
    ensures
        r == (a@ == b@),
{
    *a == b.to_owned()
}

/// A line of a long listing.
pub fn long_line(d: &Details, name: &str) -> (s: String)
    ensures
        s@ == line_text(d@, name@),
{
    let subvol = same_text(&d.ty, "subvolume");
    let kind: u32 = if subvol || same_text(&d.ty, "dir") {
        0x4000
    } else if same_text(&d.ty, "symlink") {
        0xa000
    } else {
        0x8000
    };
    let t = Text::of(mode_string(d.perms | kind).as_str()).lit(" ").lit(
        aligned(d.uid as u64, 5).as_str(),
    ).lit(" ").lit(aligned(d.gid as u64, 5).as_str()).lit(" ").lit(
        aligned(d.size, 12).as_str(),
    ).lit(" ").lit(d.mtime.as_str()).lit(" ").lit(name);
    let ghost head = t@;
    let t = match &d.target {
        Some(x) => t.lit(Text::of(" -> ").lit(x.as_str()).done().as_str()),
        None => t,
    };
    let ghost middle = t@;
    assert(middle =~= head + (match d@.target {
        Some(t) => " -> "@ + t,
        None => seq![],
    }));
    let t = if subvol {
        t.lit("  [subvolume]")
    } else {
        t
    };
    assert(t@ =~= line_text(d@, name@));
    t.done()
}

/// How an entry of a short listing is shown.
pub open spec fn entry_text(name: Seq<char>, ftype: u8) -> Seq<char> {
    if ftype == FT_DIR {
        name + "/"@
    } else if ftype == FT_SYMLINK {
        name + "@"@
    } else {
        name
    }
}

/// An entry of a short listing.
pub fn entry_label(name: &str, ftype: u8) -> (s: String)
    ensures
        s@ == entry_text(name@, ftype),
{
    if ftype == FT_DIR {
        Text::of(name).lit("/").done()
    } else if ftype == FT_SYMLINK {
        Text::of(name).lit("@").done()
    } else {
        name.to_owned()
    }
}

/// The offset up to which a file is shown.
pub open spec fn end_of(offset: u64, length: Option<u64>) -> u64 {
    match length {
        Some(l) if offset + l <= u64::MAX => (offset + l) as u64,
        _ => u64::MAX,
    }
}

/// The offset up to which a file is shown, where `length` bytes of it are wanted or all.
pub fn cat_end(offset: u64, length: Option<u64>) -> (end: u64)
    ensures
        end == end_of(offset, length),
{
    match length {
        Some(l) => offset.saturating_add(l),
        None => u64::MAX,
    }
}

/// The tags of a subvolume.
pub open spec fn tags_of(s: SubvolView, default: u64) -> Seq<Seq<char>> {
    (if s.snapshot {
        seq!["snapshot"@]
    } else {
        seq![]
    }) + (if s.readonly {
        seq!["readonly"@]
    } else {
        seq![]
    }) + (if s.id == default {
        seq!["default"@]
    } else {
        seq![]
    })
}

/// Texts with commas between them.
pub open spec fn with_commas(s: Seq<Seq<char>>) -> Seq<char>
    decreases s.len(),
{
    if s.len() == 0 {
        seq![]
    } else if s.len() == 1 {
        s[0]
    } else {
        with_commas(s.drop_last()) + ","@ + s.last()
    }
}

/// A line about a subvolume.
pub open spec fn subvol_text(s: SubvolView, default: u64) -> Seq<char> {
    padded_left(dec(s.id as nat), 6, ' ') + "  "@ + s.path + "  "@ + with_commas(
        tags_of(s, default),
    )
}

fn commas(s: &Vec<String>) -> (r: String)
    ensures
        r@ == with_commas(views(s@)),
{
    let ghost all = views(s@);
    let mut out = String::new();
    let mut i: usize = 0;
    assert(all.take(0) =~= seq![]);
    assert(out@ =~= seq![]);
    while i < s.len()
        invariant
            i <= s@.len(),
            all == views(s@),
            out@ == with_commas(all.take(i as int)),
        decreases s@.len() - i,
    {
        let ghost part = all.take(i + 1);
        let ghost before = out@;
        assert(part.drop_last() =~= all.take(i as int));
        assert(part.last() == s@[i as int]@);
        if i > 0 {
            out.append(",");
        }
        out.append(s[i].as_str());
        proof {
            if i > 0 {
                assert(out@ =~= before + ","@ + part.last());
            } else {
                assert(out@ =~= part[0]);
            }
        }
        i += 1;
    }
    assert(all.take(i as int) =~= all);
    out
}

/// A line about a subvolume.
pub fn subvol_line(s: &Subvol, default: u64) -> (r: String)
    ensures
        r@ == subvol_text(s@, default),
{
    let mut tags: Vec<String> = Vec::new();
    if s.snapshot {
        tags.push("snapshot".to_owned());
    }
    if s.readonly {
        tags.push("readonly".to_owned());
    }
    if s.id == default {
        tags.push("default".to_owned());
    }
    assert(views(tags@) =~= tags_of(s@, default));
    Text::of(aligned(s.id, 6).as_str()).lit("  ").lit(s.path.as_str()).lit("  ").lit(
        commas(&tags).as_str(),
    ).done()
}

/// A word of a list.
pub struct Word {
    pub text: String,
}

impl View for Word {
    type V = Seq<char>;

    open spec fn view(&self) -> Seq<char> {
        self.text@
    }
}

proof fn lemma_text_irreflexive(a: Seq<char>)
    ensures
        !text_below(a, a),
    decreases a.len(),
{
    if a.len() > 0 {
        lemma_text_irreflexive(a.skip(1));
    }
}

proof fn lemma_text_transitive(a: Seq<char>, b: Seq<char>, c: Seq<char>)
    requires
        text_below(a, b),
        text_below(b, c),
    ensures
        text_below(a, c),
    decreases a.len(),
{
    if a.len() > 0 && b.len() > 0 && c.len() > 0 && a[0] == b[0] && b[0] == c[0] {
        lemma_text_transitive(a.skip(1), b.skip(1), c.skip(1));
    }
}

proof fn lemma_text_same_rank(a: Seq<char>, b: Seq<char>, c: Seq<char>)
    requires
        !text_below(a, b),
        !text_below(b, c),
    ensures
        !text_below(a, c),
    decreases a.len(),
{
    if a.len() > 0 && b.len() > 0 && c.len() > 0 && a[0] == b[0] && b[0] == c[0] {
        lemma_text_same_rank(a.skip(1), b.skip(1), c.skip(1));
    }
}

/// Texts neither of which comes before the other are the same.
proof fn lemma_text_total(a: Seq<char>, b: Seq<char>)
    requires
        !text_below(a, b),
        !text_below(b, a),
    ensures
        a == b,
    decreases a.len(),
{
    if a.len() > 0 && b.len() > 0 && a[0] == b[0] {
        lemma_text_total(a.skip(1), b.skip(1));
        assert(a =~= seq![a[0]] + a.skip(1));
        assert(b =~= seq![b[0]] + b.skip(1));
    } else {
        assert(a =~= b);
    }
}

/// Words are ranked by their characters.
impl Ranked for Word {
    open spec fn below(a: Seq<char>, b: Seq<char>) -> bool {
        text_below(a, b)
    }

    fn is_below(&self, other: &Self) -> (r: bool) {
        let a = chars_of(self.text.as_str());
        let b = chars_of(other.text.as_str());
        let mut i: usize = 0;
        assert(a@.skip(0) =~= a@);
        assert(b@.skip(0) =~= b@);
        while i < a.len() && i < b.len()
            invariant
                i <= a@.len(),
                i <= b@.len(),
                a@ == self@,
                b@ == other@,
                text_below(a@, b@) == text_below(a@.skip(i as int), b@.skip(i as int)),
            decreases a@.len() - i,
        {
            if a[i] != b[i] {
                return a[i] < b[i];
            }
            assert(a@.skip(i as int).skip(1) =~= a@.skip(i + 1));
            assert(b@.skip(i as int).skip(1) =~= b@.skip(i + 1));
            i += 1;
        }
        i < b.len()
    }

    fn copy(&self) -> (c: Self) {
        Word { text: self.text.clone() }
    }

    proof fn irreflexive(a: Seq<char>) {
        lemma_text_irreflexive(a);
    }

    proof fn transitive(a: Seq<char>, b: Seq<char>, c: Seq<char>) {
        lemma_text_transitive(a, b, c);
    }

    proof fn same_rank(a: Seq<char>, b: Seq<char>, c: Seq<char>) {
        lemma_text_same_rank(a, b, c);
    }
}

/// The texts ascend, none twice.
pub open spec fn ascending_texts(s: Seq<Seq<char>>) -> bool {
    forall|i: int, j: int|
        0 <= i < j < s.len() ==> text_below(#[trigger] s[i], #[trigger] s[j])
}

/// `r` holds the texts of `s`, each once, in ascending order.
pub open spec fn is_distinct_form(s: Seq<Seq<char>>, r: Seq<Seq<char>>) -> bool {
    ascending_texts(r) && forall|x: Seq<char>| #[trigger] r.contains(x) <==> s.contains(x)
}

/// The texts of `s`, each once, in ascending order.
pub fn distinct(s: &Vec<Word>) -> (r: Vec<String>)
    ensures
        is_distinct_form(views(s@), views(r@)),
{
    let sorted = sort(s);
    let ghost all = views(s@);
    let ghost t = views(sorted@);
    proof {
        law_sorted_form_keeps_the_values::<Word>(all, t);
    }
    let mut out: Vec<String> = Vec::new();
    let mut i: usize = 0;
    assert(views(out@) =~= seq![]);
    while i < sorted.len()
        invariant
            i <= sorted@.len(),
            t == views(sorted@),
            forall|i: int, j: int|
                0 <= i < j < t.len() ==> !text_below(#[trigger] t[j], #[trigger] t[i]),
            ascending_texts(views(out@)),
            forall|x: Seq<char>| #[trigger]
                views(out@).contains(x) <==> t.take(i as int).contains(x),
            i > 0 ==> out@.len() > 0 && views(out@).last() == t[i - 1],
            out@.len() <= i,
        decreases sorted@.len() - i,
    {
        let w = &sorted[i].text;
        assert(t[i as int] == w@);
        let n: usize = out.len();
        let ghost before = views(out@);
        let ghost part = t.take(i + 1);
        let again = n > 0 && out[n - 1] == *w;
        if n > 0 {
            assert(before.last() == out@[n - 1]@);
        }
        if !again {
            let copy = w.clone();
            proof {
                lemma_views_push(out@, copy);
            }
            out.push(copy);
            proof {
                let now = views(out@);
                assert(now == before.push(w@));
                assert forall|k: int, j: int| 0 <= k < j < now.len() implies text_below(
                    #[trigger] now[k],
                    #[trigger] now[j],
                ) by {
                    if j < before.len() {
                        assert(now[k] == before[k] && now[j] == before[j]);
                    } else {
                        assert(!text_below(t[i as int], t[i - 1]));
                        if !text_below(before.last(), w@) {
                            lemma_text_total(before.last(), w@);
                        }
                        if k < before.len() - 1 {
                            assert(text_below(before[k], before[before.len() - 1]));
                            lemma_text_transitive(before[k], before.last(), w@);
                        }
                        assert(now[k] == before[k]);
                    }
                }
            }
        }
        proof {
            let now = views(out@);
            assert forall|x: Seq<char>| #[trigger] now.contains(x) <==> part.contains(x) by {
                if part.contains(x) {
                    let k = part.index_of(x);
                    if k < i {
                        assert(t.take(i as int)[k] == x);
                        assert(before.contains(x));
                        let m = before.index_of(x);
                        assert(now[m] == x);
                    } else {
                        assert(x == w@);
                        assert(now[now.len() - 1] == x);
                    }
                }
                if now.contains(x) {
                    let m = now.index_of(x);
                    if m < before.len() {
                        assert(before[m] == x);
                        assert(before.contains(x));
                        assert(t.take(i as int).contains(x));
                        let k = t.take(i as int).index_of(x);
                        assert(part[k] == x);
                    } else {
                        assert(part[i as int] == x);
                    }
                }
            }
        }
        i += 1;
    }
    assert(t.take(i as int) =~= t);
    out
}

/// There is one such form of a list of texts.
pub proof fn law_distinct_form_is_unique(
    s: Seq<Seq<char>>,
    r: Seq<Seq<char>>,
    t: Seq<Seq<char>>,
)
    requires
        is_distinct_form(s, r),
        is_distinct_form(s, t),
    ensures
        r == t,
{
    lemma_distinct_prefix(r, t, r.len() as int);
    lemma_distinct_prefix(t, r, t.len() as int);
    assert(r =~= t);
}

/// Two ascending lists of the same texts agree as far as both go, and neither ends first.
proof fn lemma_distinct_prefix(r: Seq<Seq<char>>, t: Seq<Seq<char>>, n: int)
    requires
        ascending_texts(r),
        ascending_texts(t),
        forall|x: Seq<char>| #[trigger] r.contains(x) <==> t.contains(x),
        0 <= n <= r.len(),
    ensures
        n <= t.len(),
        forall|i: int| 0 <= i < n ==> #[trigger] r[i] == t[i],
    decreases n,
{
    if n > 0 {
        lemma_distinct_prefix(r, t, n - 1);
        let k = n - 1;
        assert(r[k] == r[k] && r.contains(r[k]));
        assert(t.contains(r[k]));
        let a = t.index_of(r[k]);
        if a < k {
            assert(r[a] == t[a]);
            assert(text_below(r[a], r[k]));
            lemma_text_irreflexive(r[k]);
        }
        assert(a >= k);
        if a > k {
            assert(t.contains(t[k]));
            assert(r.contains(t[k]));
            let b = r.index_of(t[k]);
            if b < k {
                assert(r[b] == t[b]);
                assert(text_below(t[b], t[k]));
                lemma_text_irreflexive(t[k]);
            } else if b > k {
                assert(text_below(r[k], r[b]));
                assert(text_below(t[k], t[a]));
                lemma_text_transitive(r[k], r[b], r[k]);
                lemma_text_irreflexive(r[k]);
            } else {
                assert(text_below(t[k], t[a]));
                lemma_text_irreflexive(r[k]);
            }
        }
    }
}

/// The name of the incompatible feature with that bit, where it has one.
pub open spec fn feature_label(bit: u64) -> Option<Seq<char>> {
    if bit == 0 {
        Some("mixed-backref"@)
    } else if bit == 1 {
        Some("default-subvol"@)
    } else if bit == 2 {
        Some("mixed-groups"@)
    } else if bit == 3 {
        Some("compress-lzo"@)
    } else if bit == 4 {
        Some("compress-zstd"@)
    } else if bit == 5 {
        Some("big-metadata"@)
    } else if bit == 6 {
        Some("extended-iref"@)
    } else if bit == 7 {
        Some("raid56"@)
    } else if bit == 8 {
        Some("skinny-metadata"@)
    } else if bit == 9 {
        Some("no-holes"@)
    } else if bit == 10 {
        Some("metadata-uuid"@)
    } else if bit == 11 {
        Some("raid1c34"@)
    } else if bit == 12 {
        Some("zoned"@)
    } else if bit == 13 {
        Some("extent-tree-v2"@)
    } else if bit == 14 {
        Some("raid-stripe-tree"@)
    } else if bit == 16 {
        Some("simple-quota"@)
    } else {
        None
    }
}

/// The names of the features whose bits below `n` are set, from the lowest on.
pub open spec fn features_below(flags: u64, n: u64) -> Seq<Seq<char>>
    decreases n,
{
    if n == 0 {
        seq![]
    } else {
        let bit = (n - 1) as u64;
        match feature_label(bit) {
            Some(name) if flags & (1u64 << bit) != 0 => features_below(flags, bit).push(name),
            _ => features_below(flags, bit),
        }
    }
}

/// The names of the incompatible features that a filesystem uses.
pub open spec fn features_of(flags: u64) -> Seq<Seq<char>> {
    features_below(flags, 64)
}

fn feature_name(bit: u64) -> (r: Option<&'static str>)
    ensures
        match r {
            Some(s) => feature_label(bit) == Some(s@),
            None => feature_label(bit) is None,
        },
{
    match bit {
        0 => Some("mixed-backref"),
        1 => Some("default-subvol"),
        2 => Some("mixed-groups"),
        3 => Some("compress-lzo"),
        4 => Some("compress-zstd"),
        5 => Some("big-metadata"),
        6 => Some("extended-iref"),
        7 => Some("raid56"),
        8 => Some("skinny-metadata"),
        9 => Some("no-holes"),
        10 => Some("metadata-uuid"),
        11 => Some("raid1c34"),
        12 => Some("zoned"),
        13 => Some("extent-tree-v2"),
        14 => Some("raid-stripe-tree"),
        16 => Some("simple-quota"),
        _ => None,
    }
}

/// The names of the incompatible features that a filesystem uses.
pub fn features(flags: u64) -> (r: Vec<String>)
    ensures
        views(r@) == features_of(flags),
{
    let mut r: Vec<String> = Vec::new();
    let mut bit: u64 = 0;
    assert(views(r@) =~= seq![]);
    while bit < 64
        invariant
            bit <= 64,
            views(r@) == features_below(flags, bit),
        decreases 64 - bit,
    {
        if let Some(name) = feature_name(bit) {
            if flags & (1u64 << bit) != 0 {
                let word = name.to_owned();
                proof {
                    lemma_views_push(r@, word);
                }
                r.push(word);
            }
        }
        bit += 1;
    }
    r
}

/// What a chunk holds and how, in one word.
pub open spec fn profile_text(c: ChunkView) -> Seq<char> {
    kind_label(c.ty) + ":"@ + profile_label(c.ty)
}

/// The profiles of the chunks, each once, in ascending order.
pub fn profiles(chunks: &Vec<Chunk>) -> (r: Vec<String>)
    ensures
        is_distinct_form(
            Seq::new(chunks@.len(), |i: int| profile_text(chunks@[i]@)),
            views(r@),
        ),
{
    let mut all: Vec<Word> = Vec::new();
    let mut i: usize = 0;
    while i < chunks.len()
        invariant
            i <= chunks@.len(),
            views(all@) == Seq::new(i as nat, |k: int| profile_text(chunks@[k]@)),
        decreases chunks@.len() - i,
    {
        let c = &chunks[i];
        let w = Word { text: Text::of(c.kind()).lit(":").lit(c.profile()).done() };
        proof {
            lemma_views_push(all@, w);
        }
        all.push(w);
        assert(views(all@) =~= Seq::new((i + 1) as nat, |k: int| profile_text(chunks@[k]@)));
        i += 1;
    }
    distinct(&all)
}

/// The compression types of the extents, each once, in ascending order.
pub fn compressions(exts: &Vec<Extent>) -> (r: Vec<String>)
    ensures
        is_distinct_form(
            Seq::new(
                exts@.len(),
                |i: int| crate::disk::compression_label(exts@[i].compression),
            ),
            views(r@),
        ),
{
    let mut all: Vec<Word> = Vec::new();
    let mut i: usize = 0;
    while i < exts.len()
        invariant
            i <= exts@.len(),
            views(all@) == Seq::new(
                i as nat,
                |k: int| crate::disk::compression_label(exts@[k].compression),
            ),
        decreases exts@.len() - i,
    {
        let w = Word { text: exts[i].compression_name().to_owned() };
        proof {
            lemma_views_push(all@, w);
        }
        all.push(w);
        assert(views(all@) =~= Seq::new(
            (i + 1) as nat,
            |k: int| crate::disk::compression_label(exts@[k].compression),
        ));
        i += 1;
    }
    distinct(&all)
}

/// The line that sums up a copy.
pub open spec fn summary_text(r: ReportView) -> Seq<char> {
    "copied "@ + dec(r.files as nat) + " files, "@ + dec(r.dirs as nat) + " dirs, "@ + dec(
        r.symlinks as nat,
    ) + " symlinks, "@ + dec(r.bytes as nat) + " bytes; "@ + dec(r.excluded as nat)
        + " excluded, "@ + dec(r.failures as nat) + " failed"@
}

/// The line that sums up a copy.
pub fn summary(r: &Report) -> (s: String)
    ensures
        s@ == summary_text(r@),
{
    Text::of("copied ").num(r.files).lit(" files, ").num(r.dirs).lit(" dirs, ").num(
        r.symlinks,
    ).lit(" symlinks, ").num(r.bytes).lit(" bytes; ").num(r.excluded).lit(" excluded, ").num(
        r.failures,
    ).lit(" failed").done()
}

/// What should be known about a filesystem before it is read: that its checksums cannot be
/// verified, that it was not cleanly unmounted.
pub open spec fn warnings_of(sb: SuperblockView) -> Seq<Seq<char>> {
    (if sb.csum_type != 0 {
        seq![
            "this filesystem uses "@ + csum_label(sb.csum_type)
                + " checksums, which this tool cannot verify; corruption will not be detected"@,
        ]
    } else {
        seq![]
    }) + (if sb.log_root != 0 {
        seq![
            "the filesystem was not cleanly unmounted; writes fsynced just before the crash are not visible"@,
        ]
    } else {
        seq![]
    })
}

/// What should be known about a filesystem before it is read.
pub fn warnings(sb: &Superblock) -> (r: Vec<String>)
    ensures
        views(r@) == warnings_of(sb@),
{
    let mut r: Vec<String> = Vec::new();
    if sb.csum_type != 0 {
        r.push(
            Text::of("this filesystem uses ").lit(sb.csum_name()).lit(
                " checksums, which this tool cannot verify; corruption will not be detected",
            ).done(),
        );
    }
    if sb.log_root != 0 {
        r.push(
            "the filesystem was not cleanly unmounted; writes fsynced just before the crash are not visible".to_owned(),
        );
    }
    assert(views(r@) =~= warnings_of(sb@));
    r
}

/// How one gets to open a device.
pub open spec fn advice(host: Host) -> Seq<char> {
    match host {
        Host::Windows => "run from an elevated (Administrator) terminal"@,
        Host::Unix => "run as root, or add yourself to the `disk` group"@,
    }
}

/// The error for a device that could not be opened: that the host denied it, or what else
/// the host said.
pub open spec fn open_error_of(
    path: Seq<char>,
    denied: bool,
    message: Seq<char>,
    host: Host,
) -> ErrorView {
    if denied {
        ErrorView {
            kind: ErrorKind::AccessDenied,
            subject: seq![],
            detail: seq![],
            context: path + ": access denied; raw disks need privileges: "@ + advice(host),
        }
    } else {
        ErrorView {
            kind: ErrorKind::Host,
            subject: seq![],
            detail: message,
            context: "opening "@ + path,
        }
    }
}

/// The error for a device that could not be opened.
pub fn open_error(path: &str, denied: bool, message: String, host: Host) -> (e: Error)
    ensures
        e@ == open_error_of(path@, denied, message@, host),
{
    if denied {
        let how = match host {
            Host::Windows => "run from an elevated (Administrator) terminal",
            Host::Unix => "run as root, or add yourself to the `disk` group",
        };
        Error::plain(ErrorKind::AccessDenied).within(
            Text::of(path).lit(": access denied; raw disks need privileges: ").lit(how).done(),
        )
    } else {
        Error::because(ErrorKind::Host, message).within(Text::of("opening ").lit(path).done())
    }
}

} // verus!
