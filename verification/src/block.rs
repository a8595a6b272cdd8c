//! Which disks are there, and which of them may be erased.
//!
//! The interesting part is not the listing but the exclusions. An installer
//! that offers you the USB stick it is running from will eventually be taken up
//! on it, so a disk holding a mounted filesystem is listed with the reason why
//! it must not be wiped.

use vstd::prelude::*;

use crate::run::Failed;
use crate::text;
use crate::text::{
    chars_of, find_from, lines_of, number, parse_u64, same, seek, starts_with, tail_after, trimmed,
    Text,
};

verus! {

/// A whole disk of the machine.
#[derive(Debug)]
pub struct Disk {
    pub path: String,
    pub bytes: u64,
    pub model: String,
    pub transport: String,
    pub removable: bool,
    /// `Some(reason)` if this disk must not be wiped.
    pub busy: Option<String>,
}

/// What a `Disk` holds, as contracts see it.
#[verifier::ext_equal]
pub struct DiskView {
    pub path: Text,
    pub bytes: u64,
    pub model: Text,
    pub transport: Text,
    pub removable: bool,
    pub busy: Option<Text>,
}

impl View for Disk {
    type V = DiskView;

    open spec fn view(&self) -> DiskView {
        DiskView {
            path: self.path@,
            bytes: self.bytes,
            model: self.model@,
            transport: self.transport@,
            removable: self.removable,
            busy: self.busy.deep_view(),
        }
    }
}

impl DeepView for Disk {
    type V = DiskView;

    open spec fn deep_view(&self) -> DiskView {
        self@
    }
}

impl Clone for Disk {
    fn clone(&self) -> (r: Disk)
        ensures
            r == *self,
    {
        Disk {
            path: self.path.clone(),
            bytes: self.bytes,
            model: self.model.clone(),
            transport: self.transport.clone(),
            removable: self.removable,
            busy: match &self.busy {
                Some(why) => Some(why.clone()),
                None => None,
            },
        }
    }
}

// ---------------------------------------------------------------------------
// Sizes
// ---------------------------------------------------------------------------

/// The spacing of double-precision numbers around `n`.
pub open spec fn spacing(n: nat) -> nat
    decreases n,
{
    if n < 0x20_0000_0000_0000 {
        1
    } else {
        2 * spacing(n / 2)
    }
}

/// `n / d` rounded to the nearest whole number, a tie going to the even one.
pub open spec fn half_even(n: nat, d: nat) -> nat {
    let q = n / d;
    let r = n % d;
    if 2 * r < d || (2 * r == d && q % 2 == 0) {
        q
    } else {
        q + 1
    }
}

/// The double-precision number nearest to `n`.
pub open spec fn nearest_double(n: nat) -> nat {
    half_even(n, spacing(n)) * spacing(n)
}

/// One K, M, G or T.
pub open spec fn unit_size(u: int) -> nat {
    if u <= 1 {
        0x400
    } else if u == 2 {
        0x10_0000
    } else if u == 3 {
        0x4000_0000
    } else {
        0x100_0000_0000
    }
}

/// Which unit a size is printed in: the largest that it reaches.
pub open spec fn unit_index(n: nat) -> int {
    if n < unit_size(1) {
        0
    } else if n < unit_size(2) {
        1
    } else if n < unit_size(3) {
        2
    } else if n < unit_size(4) {
        3
    } else {
        4
    }
}

/// The letter of a unit.
pub open spec fn unit_letter(u: int) -> Text {
    if u <= 1 {
        "K"@
    } else if u == 2 {
        "M"@
    } else if u == 3 {
        "G"@
    } else {
        "T"@
    }
}

/// A size the way a disk's box prints it: powers of two, one decimal. Sizes
/// too large for a double-precision number are the nearest one's.
pub open spec fn human_size(bytes: nat) -> Text {
    let n = nearest_double(bytes);
    let u = unit_index(n);
    if u == 0 {
        text::decimal(bytes) + " B"@
    } else {
        let tenths = half_even(10 * n, unit_size(u));
        text::decimal(tenths / 10) + "."@ + text::decimal(tenths % 10) + unit_letter(u)
    }
}

/// The spacing of double-precision numbers around `n`.
fn spacing_of(n: u64) -> (r: u64)
    ensures
        r == spacing(n as nat),
        1 <= r <= 0x1000,
        r == 1 || r <= n / 0x10_0000_0000_0000,
    decreases n,
{
    if n < 0x20_0000_0000_0000 {
        1
    } else {
        2 * spacing_of(n / 2)
    }
}

/// `n / d` rounded to the nearest whole number, a tie going to the even one.
fn rounded(n: u128, d: u128) -> (r: u128)
    requires
        0 < d <= 0x1_0000_0000_0000,
        n <= 0x100_0000_0000_0000_0000,
    ensures
        r == half_even(n as nat, d as nat),
        r <= n / d + 1,
{
    let q: u128 = n / d;
    let rest: u128 = n % d;
    assert(q <= n) by (nonlinear_arith)
        requires
            q == n / d,
            d > 0,
    ;
    assert(rest < d) by (nonlinear_arith)
        requires
            rest == n % d,
            d > 0,
    ;
    if 2 * rest < d || (2 * rest == d && q % 2 == 0) {
        q
    } else {
        q + 1
    }
}

/// Sizes the way a disk's box prints them: powers of two, one decimal.
pub fn human(bytes: u64) -> (out: String)
    ensures
        out@ == human_size(bytes as nat),
{
    let step: u128 = spacing_of(bytes) as u128;
    let q: u128 = rounded(bytes as u128, step);
    proof {
        assert(q * step <= bytes + step) by (nonlinear_arith)
            requires
                q <= bytes as int / step as int + 1,
                step >= 1,
        ;
    }
    let n: u128 = q * step;
    let (unit, letter): (u128, &str) = if n < 0x400 {
        return number(bytes).concat(" B");
    } else if n < 0x10_0000 {
        (0x400, "K")
    } else if n < 0x4000_0000 {
        (0x10_0000, "M")
    } else if n < 0x100_0000_0000 {
        (0x4000_0000, "G")
    } else {
        (0x100_0000_0000, "T")
    };
    let tenths: u128 = rounded(10 * n, unit);
    proof {
        vstd::arithmetic::div_mod::lemma_div_is_ordered_by_denominator(
            10 * n as int,
            0x400,
            unit as int,
        );
        assert(tenths <= u64::MAX);
    }
    number((tenths / 10) as u64).concat(".").concat(number((tenths % 10) as u64).as_str()).concat(
        letter,
    )
}

impl DiskView {
    /// Whether the device's name ends in a digit.
    pub open spec fn numbered(self) -> bool {
        self.path.len() > 0 && text::is_digit(self.path.last())
    }

    /// The device of partition `n`.
    pub open spec fn partition(self, n: nat) -> Text {
        if self.numbered() {
            self.path + "p"@ + text::decimal(n)
        } else {
            self.path + text::decimal(n)
        }
    }

    /// The device's name without its directory.
    pub open spec fn word(self) -> Text {
        text::after_last(self.path, '/')
    }
}

impl Disk {
    pub fn size(&self) -> (out: String)
        ensures
            out@ == human_size(self.bytes as nat),
    {
        human(self.bytes)
    }

    /// `/dev/sda` becomes `/dev/sda1`, `/dev/nvme0n1` becomes `/dev/nvme0n1p1`.
    ///
    /// The `p` is not cosmetic: kernel naming inserts it whenever the disk name
    /// already ends in a digit, and getting it wrong means formatting nothing
    /// and then mounting nothing, several steps later.
    pub fn partition(&self, n: u32) -> (out: String)
        ensures
            out@ == self@.partition(n as nat),
    {
        let len: usize = self.path.as_str().unicode_len();
        let digit: bool = len > 0 && {
            let last = self.path.as_str().get_char(len - 1);
            '0' <= last && last <= '9'
        };
        if digit {
            self.path.clone().concat("p").concat(number(n as u64).as_str())
        } else {
            self.path.clone().concat(number(n as u64).as_str())
        }
    }

    /// What the confirmation screen asks the user to type.
    pub fn word(&self) -> (out: String)
        ensures
            out@ == self@.word(),
    {
        tail_after(self.path.as_str(), '/')
    }
}

// ---------------------------------------------------------------------------
// `KEY="value"` pairs
// ---------------------------------------------------------------------------

/// The pairs of a line `KEY="value" KEY="value"`, in order, keys and values
/// without white space around them. What follows the last complete pair is
/// ignored.
pub open spec fn fields(s: Text) -> Seq<(Text, Text)>
    decreases s.len(),
{
    proof {
        text::lemma_first_at(s, seq!['=', '"']);
    }
    match text::first_at(s, seq!['=', '"']) {
        None => Seq::empty(),
        Some(eq) => {
            let after = s.skip(eq as int + 2);
            let end = text::upto(after, '"') as int;
            if end >= after.len() {
                Seq::empty()
            } else {
                seq![(text::trim(s.take(eq as int)), text::trim(after.take(end)))] + fields(
                    after.skip(end + 1),
                )
            }
        },
    }
}

/// The value of a key in a list of pairs: the last one given.
pub open spec fn value_of(list: Seq<(Text, Text)>, key: Text) -> Option<Text>
    decreases list.len(),
{
    if list.len() == 0 {
        None
    } else if list.last().0 == key {
        Some(list.last().1)
    } else {
        value_of(list.drop_last(), key)
    }
}

/// The pairs of one line.
pub struct Pairs {
    pub entries: Vec<(String, String)>,
}

impl View for Pairs {
    type V = Seq<(Text, Text)>;

    open spec fn view(&self) -> Seq<(Text, Text)> {
        self.entries@.map_values(|e: (String, String)| (e.0@, e.1@))
    }
}

impl Pairs {
    /// The value of a key, if the line has one.
    pub fn get(&self, key: &str) -> (out: Option<String>)
        ensures
            out.deep_view() == value_of(self@, key@),
    {
        let mut i: usize = self.entries.len();
        assert(self@.take(i as int) == self@);
        while i > 0
            invariant
                i <= self.entries@.len(),
                value_of(self@.take(i as int), key@) == value_of(self@, key@),
            decreases i,
        {
            proof {
                let front = self@.take(i as int);
                assert(front.last() == (self.entries@[i - 1].0@, self.entries@[i - 1].1@));
                assert(front.drop_last() == self@.take(i - 1));
            }
            if same(self.entries[i - 1].0.as_str(), key) {
                return Some(self.entries[i - 1].1.clone());
            }
            i -= 1;
        }
        None
    }

    /// The value of a key, or nothing.
    pub fn get_or_empty(&self, key: &str) -> (out: String)
        ensures
            out@ == or_empty(value_of(self@, key@)),
    {
        match self.get(key) {
            Some(v) => v,
            None => String::new(),
        }
    }
}

/// A text that may be missing, as the empty text when it is.
pub open spec fn or_empty(t: Option<Text>) -> Text {
    match t {
        Some(v) => v,
        None => Seq::empty(),
    }
}

/// `KEY="value" KEY="value"` as pairs. lsblk escapes an embedded quote as
/// `\x22`, which nothing here needs to decode: a model name containing a quote
/// loses a character in a label, and that is the whole consequence.
pub fn pairs(line: &str) -> (out: Pairs)
    ensures
        out@ == fields(text::trim(line@)),
{
    let s = trimmed(line);
    let cs = chars_of(s.as_str());
    let needle: Vec<char> = vec!['=', '"'];
    assert(needle@ == seq!['=', '"']);
    let mut out = Pairs { entries: Vec::new() };
    let mut at: usize = 0;
    assert(cs@.skip(0) == cs@);
    assert(out@ + fields(s@) == fields(s@));
    loop
        invariant
            cs@ == s@,
            s@ == text::trim(line@),
            needle@ == seq!['=', '"'],
            at <= cs@.len(),
            out@ + fields(cs@.skip(at as int)) == fields(s@),
        decreases cs@.len() - at,
    {
        let ghost rest = cs@.skip(at as int);
        proof {
            text::lemma_first_at(rest, needle@);
        }
        let eq: usize = match find_from(&cs, &needle, at) {
            Some(i) => i,
            None => {
                assert(out@ + Seq::empty() == out@);
                return out;
            },
        };
        assert(eq + 2 <= cs.len());
        let ghost after = rest.skip(eq - at + 2);
        assert(after == cs@.skip(eq + 2));
        let end: usize = seek(&cs, eq + 2, '"');
        if end == cs.len() {
            assert(out@ + Seq::empty() == out@);
            return out;
        }
        assert(rest.take(eq - at) == s@.subrange(at as int, eq as int));
        assert(after.take(end - eq - 2) == s@.subrange(eq + 2, end as int));
        assert(after.skip(end - eq - 2 + 1) == cs@.skip(end + 1));
        let ghost before = out@;
        let key = trimmed(s.as_str().substring_char(at, eq));
        let value = trimmed(s.as_str().substring_char(eq + 2, end));
        out.entries.push((key, value));
        proof {
            assert(out@ == before.push((key@, value@)));
            let more = fields(cs@.skip(end + 1));
            assert(before + (seq![(key@, value@)] + more) == before.push((key@, value@)) + more);
        }
        at = end + 1;
    }
}

// ---------------------------------------------------------------------------
// The device tree
// ---------------------------------------------------------------------------

/// One row of `lsblk`'s device tree.
pub struct Node {
    pub kname: String,
    pub parent: String,
    pub mountpoint: String,
}

/// What a `Node` holds, as contracts see it.
#[verifier::ext_equal]
pub struct NodeView {
    pub kname: Text,
    pub parent: Text,
    pub mountpoint: Text,
}

impl View for Node {
    type V = NodeView;

    open spec fn view(&self) -> NodeView {
        NodeView { kname: self.kname@, parent: self.parent@, mountpoint: self.mountpoint@ }
    }
}

impl DeepView for Node {
    type V = NodeView;

    open spec fn deep_view(&self) -> NodeView {
        self@
    }
}

/// How far up the device tree a mounted filesystem is followed.
pub const DEPTH: usize = 8;

/// The device that `k` is part of: the parent given by the first row about `k`,
/// if it names one.
pub open spec fn parent_of(nodes: Seq<NodeView>, k: Text) -> Option<Text>
    decreases nodes.len(),
{
    if nodes.len() == 0 {
        None
    } else if nodes[0].kname == k {
        if nodes[0].parent.len() == 0 {
            None
        } else {
            Some(nodes[0].parent)
        }
    } else {
        parent_of(nodes.drop_first(), k)
    }
}

/// Whether `disk` is `from` itself or one of its ancestors, among the first
/// `depth` devices of that chain.
pub open spec fn stands_on(nodes: Seq<NodeView>, from: Text, disk: Text, depth: nat) -> bool
    decreases depth,
{
    depth > 0 && (from == disk || match parent_of(nodes, from) {
        Some(p) => stands_on(nodes, p, disk, (depth - 1) as nat),
        None => false,
    })
}

/// Whether a row is a mounted filesystem or active swap that stands on `disk`.
pub open spec fn occupies(nodes: Seq<NodeView>, row: NodeView, disk: Text) -> bool {
    row.mountpoint.len() > 0 && stands_on(nodes, row.kname, disk, DEPTH as nat)
}

/// How a mount is given as a reason.
pub open spec fn in_use(mountpoint: Text) -> Text {
    if mountpoint == "[SWAP]"@ {
        "in use — swap is active on it"@
    } else {
        "in use — "@ + mountpoint + " is mounted from it"@
    }
}

/// The reason of the first of `rows` that occupies `disk`, if one does.
pub open spec fn occupant(nodes: Seq<NodeView>, rows: Seq<NodeView>, disk: Text) -> Option<Text>
    decreases rows.len(),
{
    if rows.len() == 0 {
        None
    } else if occupies(nodes, rows[0], disk) {
        Some(in_use(rows[0].mountpoint))
    } else {
        occupant(nodes, rows.drop_first(), disk)
    }
}

/// The device that `k` is part of.
fn parent(nodes: &[Node], k: &str) -> (out: Option<String>)
    ensures
        out.deep_view() == parent_of(nodes.deep_view(), k@),
{
    let ghost all = nodes.deep_view();
    let mut i: usize = 0;
    assert(all.skip(0) == all);
    while i < nodes.len()
        invariant
            all == nodes.deep_view(),
            i <= nodes.len(),
            parent_of(all.skip(i as int), k@) == parent_of(all, k@),
        decreases nodes.len() - i,
    {
        assert(all.skip(i as int)[0] == nodes@[i as int]@);
        assert(all.skip(i as int).drop_first() == all.skip(i + 1));
        if same(nodes[i].kname.as_str(), k) {
            if nodes[i].parent.as_str().is_empty() {
                return None;
            }
            return Some(nodes[i].parent.clone());
        }
        i += 1;
    }
    None
}

/// Whether `disk` is among the first devices of the chain that starts at
/// `from`.
fn chain_reaches(nodes: &[Node], from: &str, disk: &str) -> (r: bool)
    ensures
        r == stands_on(nodes.deep_view(), from@, disk@, DEPTH as nat),
{
    let mut at = from.to_owned();
    // Depth-capped: a cycle in what the kernel reports is not something to
    // hang the installer on.
    let mut left: usize = DEPTH;
    while left > 0
        invariant
            stands_on(nodes.deep_view(), at@, disk@, left as nat) == stands_on(
                nodes.deep_view(),
                from@,
                disk@,
                DEPTH as nat,
            ),
        decreases left,
    {
        if same(at.as_str(), disk) {
            return true;
        }
        match parent(nodes, at.as_str()) {
            Some(p) => {
                at = p;
            },
            None => {
                return false;
            },
        }
        left -= 1;
    }
    false
}

/// The reason a disk is off limits, if it has one.
///
/// The chain is the point. A partition mounted straight off the disk is the
/// easy case; the one that matters is `dm-0` mounted at `/`, whose parent is
/// `nvme0n1p2`, whose parent is the disk. Checking only direct children offers
/// you the LUKS or LVM disk you are running from, and it looks correct right up
/// until somebody with an encrypted root uses it.
pub fn mounted_on(nodes: &[Node], disk: &str) -> (out: Option<String>)
    ensures
        out.deep_view() == occupant(nodes.deep_view(), nodes.deep_view(), disk@),
{
    let ghost all = nodes.deep_view();
    let mut i: usize = 0;
    assert(all.skip(0) == all);
    while i < nodes.len()
        invariant
            all == nodes.deep_view(),
            i <= nodes.len(),
            occupant(all, all.skip(i as int), disk@) == occupant(all, all, disk@),
        decreases nodes.len() - i,
    {
        assert(all.skip(i as int)[0] == nodes@[i as int]@);
        assert(all.skip(i as int).drop_first() == all.skip(i + 1));
        if !nodes[i].mountpoint.as_str().is_empty() && chain_reaches(
            nodes,
            nodes[i].kname.as_str(),
            disk,
        ) {
            let what = if same(nodes[i].mountpoint.as_str(), "[SWAP]") {
                "in use — swap is active on it".to_owned()
            } else {
                "in use — ".to_owned().concat(nodes[i].mountpoint.as_str()).concat(
                    " is mounted from it",
                )
            };
            return Some(what);
        }
        i += 1;
    }
    None
}

/// A disk is ruled out exactly when some mounted filesystem or active swap
/// stands on it.
pub proof fn lemma_mounted_rules_out(nodes: Seq<NodeView>, disk: Text)
    ensures
        occupant(nodes, nodes, disk) is Some <==> exists|i: int|
            0 <= i < nodes.len() && occupies(nodes, #[trigger] nodes[i], disk),
{
    lemma_occupant(nodes, nodes, disk);
}

proof fn lemma_occupant(nodes: Seq<NodeView>, rows: Seq<NodeView>, disk: Text)
    ensures
        occupant(nodes, rows, disk) is Some <==> exists|i: int|
            0 <= i < rows.len() && occupies(nodes, #[trigger] rows[i], disk),
    decreases rows.len(),
{
    if rows.len() > 0 {
        let rest = rows.drop_first();
        lemma_occupant(nodes, rest, disk);
        if exists|i: int| 0 <= i < rest.len() && occupies(nodes, #[trigger] rest[i], disk) {
            let i = choose|i: int| 0 <= i < rest.len() && occupies(nodes, #[trigger] rest[i], disk);
            assert(occupies(nodes, rows[i + 1], disk));
        }
        if exists|i: int| 0 <= i < rows.len() && occupies(nodes, #[trigger] rows[i], disk) {
            let i = choose|i: int| 0 <= i < rows.len() && occupies(nodes, #[trigger] rows[i], disk);
            if i > 0 {
                assert(occupies(nodes, rest[i - 1], disk));
            }
        }
    }
}

// ---------------------------------------------------------------------------
// The listing
// ---------------------------------------------------------------------------

/// The command that lists the whole disks.
pub const LISTING: [&'static str; 5] = [
    "lsblk",
    "-dnb",
    "-o",
    "PATH,KNAME,SIZE,TYPE,RM,RO,MODEL,TRAN",
    "-P",
];

/// The command that lists every device, so that a disk with something mounted
/// anywhere in its tree can be ruled out. `-l` is deliberately absent: lsblk
/// refuses `--list --pairs`.
pub const TREE: [&'static str; 5] = ["lsblk", "-nb", "-o", "KNAME,PKNAME,MOUNTPOINT", "-P"];

/// Anything smaller cannot hold an OSTree sysroot with three generations in it,
/// and is almost always the installation medium.
pub const LEAST_BYTES: u64 = 0x1_0000_0000;

/// The row that a line of the device tree stands for.
pub open spec fn node_of(line: Text) -> NodeView {
    let f = fields(text::trim(line));
    NodeView {
        kname: or_empty(value_of(f, "KNAME"@)),
        parent: or_empty(value_of(f, "PKNAME"@)),
        mountpoint: or_empty(value_of(f, "MOUNTPOINT"@)),
    }
}

/// The rows of the device tree, in order.
pub open spec fn tree_rows(tree: Text) -> Seq<NodeView> {
    text::text_lines(tree).map_values(|line: Text| node_of(line))
}

/// The rows of the device tree, in order.
fn rows_of(tree: &str) -> (out: Vec<Node>)
    ensures
        out.deep_view() == tree_rows(tree@),
{
    let lines = lines_of(tree);
    let mut out: Vec<Node> = Vec::new();
    let mut i: usize = 0;
    while i < lines.len()
        invariant
            lines.deep_view() == text::text_lines(tree@),
            i <= lines.len(),
            out.deep_view() == tree_rows(tree@).take(i as int),
        decreases lines.len() - i,
    {
        let f = pairs(lines[i].as_str());
        let node = Node {
            kname: f.get_or_empty("KNAME"),
            parent: f.get_or_empty("PKNAME"),
            mountpoint: f.get_or_empty("MOUNTPOINT"),
        };
        assert(lines.deep_view()[i as int] == lines@[i as int]@);
        assert(node@ == tree_rows(tree@)[i as int]);
        let ghost before = out.deep_view();
        out.push(node);
        assert(out.deep_view() == before.push(node@));
        i += 1;
    }
    assert(tree_rows(tree@).take(i as int) == tree_rows(tree@));
    out
}

/// Whether a device of the listing can be a target at all. `loop` as well as
/// `disk`: an attached disk image is a legitimate target. A live ISO's own loop
/// devices are all mounted, which rules them out.
pub open spec fn is_target(f: Seq<(Text, Text)>) -> bool {
    let kind = value_of(f, "TYPE"@);
    let path = or_empty(value_of(f, "PATH"@));
    &&& kind == Some("disk"@) || kind == Some("loop"@)
    &&& path.len() > 0
    &&& !text::begins(path, "/dev/zram"@)
}

/// The size that a device of the listing gives.
pub open spec fn listed_bytes(f: Seq<(Text, Text)>) -> u64 {
    match value_of(f, "SIZE"@) {
        Some(s) => if text::is_u64(s) {
            text::value(text::unsigned(s)) as u64
        } else {
            0
        },
        None => 0,
    }
}

/// The kernel's name of a device of the listing.
pub open spec fn listed_kname(f: Seq<(Text, Text)>) -> Text {
    match value_of(f, "KNAME"@) {
        Some(k) => k,
        None => text::after_last(or_empty(value_of(f, "PATH"@)), '/'),
    }
}

/// The reason a device of the listing must not be wiped, if there is one.
pub open spec fn why_busy(f: Seq<(Text, Text)>, nodes: Seq<NodeView>) -> Option<Text> {
    if value_of(f, "RO"@) == Some("1"@) {
        Some("read-only"@)
    } else if listed_bytes(f) < LEAST_BYTES {
        Some("too small for a Kiln sysroot"@)
    } else {
        occupant(nodes, nodes, listed_kname(f))
    }
}

/// The disk that a device of the listing is.
pub open spec fn listed_disk(f: Seq<(Text, Text)>, nodes: Seq<NodeView>) -> DiskView {
    DiskView {
        path: or_empty(value_of(f, "PATH"@)),
        bytes: listed_bytes(f),
        model: or_empty(value_of(f, "MODEL"@)),
        transport: or_empty(value_of(f, "TRAN"@)),
        removable: value_of(f, "RM"@) == Some("1"@),
        busy: why_busy(f, nodes),
    }
}

/// The disks of the listing's lines that can be targets, in the order of the
/// listing.
pub open spec fn targets(lines: Seq<Text>, nodes: Seq<NodeView>) -> Seq<DiskView>
    decreases lines.len(),
{
    if lines.len() == 0 {
        Seq::empty()
    } else {
        let f = fields(text::trim(lines.last()));
        if is_target(f) {
            targets(lines.drop_last(), nodes).push(listed_disk(f, nodes))
        } else {
            targets(lines.drop_last(), nodes)
        }
    }
}

/// A list from the largest to the smallest with a disk put behind all that are
/// not smaller.
pub open spec fn seated(list: Seq<DiskView>, d: DiskView) -> Seq<DiskView>
    decreases list.len(),
{
    if list.len() == 0 || list.last().bytes >= d.bytes {
        list.push(d)
    } else {
        seated(list.drop_last(), d).push(list.last())
    }
}

/// Disks from the largest to the smallest; those of one size stay in order.
pub open spec fn ranked(list: Seq<DiskView>) -> Seq<DiskView>
    decreases list.len(),
{
    if list.len() == 0 {
        Seq::empty()
    } else {
        seated(ranked(list.drop_last()), list.last())
    }
}

/// Every disk of the machine that can be a target, largest first.
pub open spec fn disk_list(listing: Text, tree: Text) -> Seq<DiskView> {
    ranked(targets(text::text_lines(listing), tree_rows(tree)))
}

/// Whether a value of a line is the given one.
fn value_is(f: &Pairs, key: &str, wanted: &str) -> (r: bool)
    ensures
        r == (value_of(f@, key@) == Some(wanted@)),
{
    match f.get(key) {
        Some(v) => same(v.as_str(), wanted),
        None => false,
    }
}

/// The disk that a line of the listing stands for, if it can be a target.
fn read_disk(line: &str, nodes: &[Node]) -> (out: Option<Disk>)
    ensures
        ({
            let f = fields(text::trim(line@));
            match out {
                Some(d) => is_target(f) && d@ == listed_disk(f, nodes.deep_view()),
                None => !is_target(f),
            }
        }),
{
    let f = pairs(line);
    if !value_is(&f, "TYPE", "disk") && !value_is(&f, "TYPE", "loop") {
        return None;
    }
    let path = f.get_or_empty("PATH");
    if path.as_str().is_empty() || starts_with(path.as_str(), "/dev/zram") {
        return None;
    }
    let bytes: u64 = match f.get("SIZE") {
        Some(s) => match parse_u64(s.as_str()) {
            Some(n) => n,
            None => 0,
        },
        None => 0,
    };
    let kname = match f.get("KNAME") {
        Some(k) => k,
        None => tail_after(path.as_str(), '/'),
    };
    let busy: Option<String> = if value_is(&f, "RO", "1") {
        Some("read-only".to_owned())
    } else if bytes < LEAST_BYTES {
        Some("too small for a Kiln sysroot".to_owned())
    } else {
        mounted_on(nodes, kname.as_str())
    };
    let model = f.get_or_empty("MODEL");
    let transport = f.get_or_empty("TRAN");
    let removable: bool = value_is(&f, "RM", "1");
    Some(Disk { path, bytes, model, transport, removable, busy })
}

/// Puts a disk behind all that are not smaller.
fn seat(list: &mut Vec<Disk>, d: Disk)
    ensures
        final(list).deep_view() == seated(old(list).deep_view(), d@),
{
    let ghost all = list.deep_view();
    let mut i: usize = list.len();
    assert(all.take(i as int) == all);
    assert(seated(all, d@) + all.skip(i as int) == seated(all, d@));
    while i > 0 && list[i - 1].bytes < d.bytes
        invariant
            all == list.deep_view(),
            all == old(list).deep_view(),
            i <= list.len(),
            seated(all.take(i as int), d@) + all.skip(i as int) == seated(all, d@),
        decreases i,
    {
        proof {
            let front = all.take(i as int);
            assert(front.last() == list@[i - 1]@);
            assert(front.drop_last() == all.take(i - 1));
            assert(seated(front.drop_last(), d@).push(front.last()) + all.skip(i as int) == seated(
                front.drop_last(),
                d@,
            ) + all.skip(i - 1));
        }
        i -= 1;
    }
    proof {
        if i > 0 {
            assert(all.take(i as int).last() == list@[i - 1]@);
        }
    }
    list.insert(i, d);
    assert(list.deep_view() == all.take(i as int).push(d@) + all.skip(i as int));
}

/// Every whole disk on the machine, largest first, from what the two listing
/// commands gave. If the second call fails, the installer has no idea what is
/// mounted, and the safe reading of "no idea" is not "nothing".
pub fn disks(listing: &Result<String, Failed>, tree: &Result<String, Failed>) -> (out: Result<
    Vec<Disk>,
    String,
>)
    ensures
        match (listing, tree) {
            (Err(e), _) => out matches Err(m) && m@ == "cannot list block devices: "@
                + e@.sentence(),
            (Ok(_), Err(e)) => out matches Err(m) && m@ == "cannot list mounted filesystems: "@
                + e@.sentence(),
            (Ok(l), Ok(t)) => out matches Ok(d) && d.deep_view() == disk_list(l@, t@),
        },
{
    let listing = match listing {
        Ok(text) => text,
        Err(e) => {
            return Err("cannot list block devices: ".to_owned().concat(e.to_string().as_str()));
        },
    };
    let tree = match tree {
        Ok(text) => text,
        Err(e) => {
            return Err(
                "cannot list mounted filesystems: ".to_owned().concat(e.to_string().as_str()),
            );
        },
    };
    let nodes = rows_of(tree.as_str());
    let lines = lines_of(listing.as_str());
    let ghost all = lines.deep_view();
    let ghost rows = nodes.deep_view();
    let mut out: Vec<Disk> = Vec::new();
    let mut i: usize = 0;
    assert(out.deep_view() == ranked(targets(all.take(0), rows)));
    while i < lines.len()
        invariant
            all == lines.deep_view(),
            rows == nodes.deep_view(),
            i <= lines.len(),
            out.deep_view() == ranked(targets(all.take(i as int), rows)),
        decreases lines.len() - i,
    {
        proof {
            assert(all.take(i + 1).drop_last() == all.take(i as int));
            assert(all.take(i + 1).last() == lines@[i as int]@);
        }
        if let Some(d) = read_disk(lines[i].as_str(), nodes.as_slice()) {
            proof {
                let grown = targets(all.take(i as int), rows).push(d@);
                assert(grown.drop_last() == targets(all.take(i as int), rows));
            }
            seat(&mut out, d);
        }
        i += 1;
    }
    assert(all.take(i as int) == all);
    Ok(out)
}

/// Ranking disks puts none before a larger one, and neither adds nor loses any.
pub proof fn lemma_largest_first(list: Seq<DiskView>)
    ensures
        forall|i: int, j: int|
            0 <= i < j < ranked(list).len() ==> (#[trigger] ranked(list)[i]).bytes >= (
            #[trigger] ranked(list)[j]).bytes,
        ranked(list).to_multiset() == list.to_multiset(),
    decreases list.len(),
{
    broadcast use vstd::seq_lib::group_to_multiset_ensures;

    if list.len() > 0 {
        lemma_largest_first(list.drop_last());
        lemma_seated(ranked(list.drop_last()), list.last());
        assert(list == list.drop_last().push(list.last()));
    } else {
        assert(ranked(list) == list);
    }
}

proof fn lemma_seated(list: Seq<DiskView>, d: DiskView)
    requires
        forall|i: int, j: int|
            0 <= i < j < list.len() ==> (#[trigger] list[i]).bytes >= (#[trigger] list[j]).bytes,
    ensures
        forall|i: int, j: int|
            0 <= i < j < seated(list, d).len() ==> (#[trigger] seated(list, d)[i]).bytes >= (
            #[trigger] seated(list, d)[j]).bytes,
        seated(list, d).to_multiset() == list.to_multiset().insert(d),
    decreases list.len(),
{
    broadcast use vstd::seq_lib::group_to_multiset_ensures;

    if list.len() > 0 && list.last().bytes < d.bytes {
        let rest = list.drop_last();
        let inner = seated(rest, d);
        lemma_seated(rest, d);
        assert(list == rest.push(list.last()));
        assert forall|i: int| 0 <= i < inner.len() implies (#[trigger] inner[i]).bytes
            >= list.last().bytes by {
            assert(inner.contains(inner[i]));
            assert(inner.to_multiset().count(inner[i]) > 0);
            if inner[i] != d {
                assert(rest.to_multiset().count(inner[i]) > 0);
                assert(rest.contains(inner[i]));
                let k = choose|k: int| 0 <= k < rest.len() && rest[k] == inner[i];
                assert(list[k].bytes >= list[list.len() - 1].bytes);
            }
        }
        assert(seated(list, d).to_multiset() =~= list.to_multiset().insert(d));
    }
}

/// A disk that is offered for erasing is writable, holds at least four
/// gibibytes, and has neither a mounted filesystem nor active swap standing on
/// it.
pub proof fn lemma_offered_disk_is_free(f: Seq<(Text, Text)>, nodes: Seq<NodeView>)
    requires
        listed_disk(f, nodes).busy is None,
    ensures
        value_of(f, "RO"@) != Some("1"@),
        listed_disk(f, nodes).bytes >= 4 * 1024 * 1024 * 1024,
        forall|i: int|
            0 <= i < nodes.len() ==> !occupies(nodes, #[trigger] nodes[i], listed_kname(f)),
{
    lemma_mounted_rules_out(nodes, listed_kname(f));
}

/// Every disk of the machine's list comes from a line of the listing that can
/// be a target, with the reason that line gives.
pub proof fn lemma_disk_comes_from_listing(listing: Text, tree: Text, i: int)
    requires
        0 <= i < disk_list(listing, tree).len(),
    ensures
        exists|k: int|
            #![trigger text::text_lines(listing)[k]]
            0 <= k < text::text_lines(listing).len() && {
                let f = fields(text::trim(text::text_lines(listing)[k]));
                is_target(f) && disk_list(listing, tree)[i] == listed_disk(f, tree_rows(tree))
            },
{
    broadcast use vstd::seq_lib::group_to_multiset_ensures;

    let lines = text::text_lines(listing);
    let rows = tree_rows(tree);
    let list = targets(lines, rows);
    lemma_largest_first(list);
    let d = ranked(list)[i];
    assert(ranked(list).contains(d));
    assert(list.to_multiset().count(d) > 0);
    assert(list.contains(d));
    lemma_target_comes_from_line(lines, rows, d);
}

proof fn lemma_target_comes_from_line(lines: Seq<Text>, nodes: Seq<NodeView>, d: DiskView)
    requires
        targets(lines, nodes).contains(d),
    ensures
        exists|k: int|
            #![trigger lines[k]]
            0 <= k < lines.len() && {
                let f = fields(text::trim(lines[k]));
                is_target(f) && d == listed_disk(f, nodes)
            },
    decreases lines.len(),
{
    if lines.len() > 0 {
        let rest = lines.drop_last();
        let f = fields(text::trim(lines.last()));
        let last = lines[lines.len() - 1];
        if is_target(f) && d == listed_disk(f, nodes) {
            assert(last == lines.last());
        } else {
            let j = choose|j: int|
                0 <= j < targets(lines, nodes).len() && targets(lines, nodes)[j] == d;
            assert(targets(rest, nodes)[j] == d);
            lemma_target_comes_from_line(rest, nodes, d);
            let k = choose|k: int|
                #![trigger rest[k]]
                0 <= k < rest.len() && {
                    let f = fields(text::trim(rest[k]));
                    is_target(f) && d == listed_disk(f, nodes)
                };
            assert(lines[k] == rest[k]);
        }
    }
}

/// Whether the first row about `child` names `parent` as the device it is part
/// of.
pub open spec fn names_parent(nodes: Seq<NodeView>, child: Text, parent: Text) -> bool {
    exists|r: int|
        #![trigger nodes[r]]
        {
            &&& 0 <= r < nodes.len()
            &&& nodes[r].kname == child
            &&& nodes[r].parent == parent
            &&& parent.len() > 0
            &&& forall|q: int| 0 <= q < r ==> (#[trigger] nodes[q]).kname != child
        }
}

/// Whether devices follow each other from part to whole, beginning with `row`.
pub open spec fn is_chain(nodes: Seq<NodeView>, chain: Seq<Text>, row: NodeView) -> bool {
    &&& chain.len() > 0
    &&& chain[0] == row.kname
    &&& forall|j: int|
        #![trigger chain[j]]
        0 <= j < chain.len() - 1 ==> names_parent(nodes, chain[j], chain[j + 1])
}

/// A device on the chain of parents of something mounted, the eighth of the
/// chain at most, is ruled out, however many steps up it is.
pub proof fn lemma_chain_rules_out(nodes: Seq<NodeView>, chain: Seq<Text>, row: int)
    requires
        0 <= row < nodes.len(),
        nodes[row].mountpoint.len() > 0,
        is_chain(nodes, chain, nodes[row]),
        chain.len() <= 8,
    ensures
        occupant(nodes, nodes, chain.last()) is Some,
{
    lemma_chain_stands_on(nodes, chain, 0);
    lemma_stands_deeper(nodes, chain[0], chain.last(), chain.len(), 8);
    assert(occupies(nodes, nodes[row], chain.last()));
    lemma_mounted_rules_out(nodes, chain.last());
}

/// The other way round: a disk that is ruled out is on the chain of parents of
/// something mounted, and the reason names where that is mounted, or says that
/// it is swap.
pub proof fn lemma_ruled_out_by_a_chain(nodes: Seq<NodeView>, disk: Text)
    requires
        occupant(nodes, nodes, disk) is Some,
    ensures
        exists|row: int, chain: Seq<Text>|
            {
                &&& 0 <= row < nodes.len()
                &&& (#[trigger] nodes[row]).mountpoint.len() > 0
                &&& #[trigger] is_chain(nodes, chain, nodes[row])
                &&& chain.len() <= 8
                &&& chain.last() == disk
                &&& nodes[row].mountpoint == "[SWAP]"@ ==> occupant(nodes, nodes, disk) == Some(
                    "in use — swap is active on it"@,
                )
                &&& nodes[row].mountpoint != "[SWAP]"@ ==> occupant(nodes, nodes, disk) == Some(
                    "in use — "@ + nodes[row].mountpoint + " is mounted from it"@,
                )
            },
{
    let row = lemma_occupant_row(nodes, nodes, disk);
    let chain = lemma_chain_of(nodes, nodes[row].kname, disk, 8);
    assert(is_chain(nodes, chain, nodes[row]));
}

proof fn lemma_parent_is_named(nodes: Seq<NodeView>, k: Text)
    ensures
        forall|p: Text|
            #[trigger] names_parent(nodes, k, p) <==> parent_of(nodes, k) == Some(p),
    decreases nodes.len(),
{
    assert forall|p: Text| #[trigger] names_parent(nodes, k, p) <==> parent_of(nodes, k) == Some(
        p,
    ) by {
        if nodes.len() > 0 {
            let rest = nodes.drop_first();
            lemma_parent_is_named(rest, k);
            assert(forall|i: int| 0 <= i < rest.len() ==> #[trigger] rest[i] == nodes[i + 1]);
            if nodes[0].kname == k {
                if names_parent(nodes, k, p) {
                    let r = choose|r: int|
                        #![trigger nodes[r]]
                        {
                            &&& 0 <= r < nodes.len()
                            &&& nodes[r].kname == k
                            &&& nodes[r].parent == p
                            &&& p.len() > 0
                            &&& forall|q: int| 0 <= q < r ==> (#[trigger] nodes[q]).kname != k
                        };
                    assert(r == 0);
                }
                if parent_of(nodes, k) == Some(p) {
                    assert(nodes[0].parent == p);
                }
            } else {
                if names_parent(nodes, k, p) {
                    let r = choose|r: int|
                        #![trigger nodes[r]]
                        {
                            &&& 0 <= r < nodes.len()
                            &&& nodes[r].kname == k
                            &&& nodes[r].parent == p
                            &&& p.len() > 0
                            &&& forall|q: int| 0 <= q < r ==> (#[trigger] nodes[q]).kname != k
                        };
                    assert(rest[r - 1].kname == k);
                    assert forall|q: int| 0 <= q < r - 1 implies (#[trigger] rest[q]).kname
                        != k by {
                        assert(nodes[q + 1].kname != k);
                    }
                    assert(names_parent(rest, k, p));
                }
                if names_parent(rest, k, p) {
                    let r = choose|r: int|
                        #![trigger rest[r]]
                        {
                            &&& 0 <= r < rest.len()
                            &&& rest[r].kname == k
                            &&& rest[r].parent == p
                            &&& p.len() > 0
                            &&& forall|q: int| 0 <= q < r ==> (#[trigger] rest[q]).kname != k
                        };
                    assert(nodes[r + 1].kname == k);
                    assert forall|q: int| 0 <= q < r + 1 implies (#[trigger] nodes[q]).kname
                        != k by {
                        if q > 0 {
                            assert(rest[q - 1].kname != k);
                        }
                    }
                }
            }
        }
    }
}

proof fn lemma_chain_stands_on(nodes: Seq<NodeView>, chain: Seq<Text>, from: int)
    requires
        0 <= from < chain.len(),
        forall|j: int|
            #![trigger chain[j]]
            0 <= j < chain.len() - 1 ==> names_parent(nodes, chain[j], chain[j + 1]),
    ensures
        stands_on(nodes, chain[from], chain.last(), (chain.len() - from) as nat),
    decreases chain.len() - from,
{
    if from < chain.len() - 1 {
        lemma_chain_stands_on(nodes, chain, from + 1);
        lemma_parent_is_named(nodes, chain[from]);
        assert(names_parent(nodes, chain[from], chain[from + 1]));
    }
}

proof fn lemma_stands_deeper(nodes: Seq<NodeView>, from: Text, disk: Text, less: nat, more: nat)
    requires
        less <= more,
        stands_on(nodes, from, disk, less),
    ensures
        stands_on(nodes, from, disk, more),
    decreases less,
{
    if from != disk {
        let p = parent_of(nodes, from)->Some_0;
        lemma_stands_deeper(nodes, p, disk, (less - 1) as nat, (more - 1) as nat);
    }
}

proof fn lemma_chain_of(nodes: Seq<NodeView>, from: Text, disk: Text, depth: nat) -> (chain: Seq<
    Text,
>)
    requires
        stands_on(nodes, from, disk, depth),
    ensures
        0 < chain.len() <= depth,
        chain[0] == from,
        chain.last() == disk,
        forall|j: int|
            #![trigger chain[j]]
            0 <= j < chain.len() - 1 ==> names_parent(nodes, chain[j], chain[j + 1]),
    decreases depth,
{
    if from == disk {
        seq![from]
    } else {
        let p = parent_of(nodes, from)->Some_0;
        let rest = lemma_chain_of(nodes, p, disk, (depth - 1) as nat);
        let chain = seq![from] + rest;
        lemma_parent_is_named(nodes, from);
        assert forall|j: int|
            #![trigger chain[j]]
            0 <= j < chain.len() - 1 implies names_parent(nodes, chain[j], chain[j + 1]) by {
            if j > 0 {
                assert(chain[j] == rest[j - 1]);
                assert(chain[j + 1] == rest[j]);
            } else {
                assert(chain[1] == rest[0]);
                assert(names_parent(nodes, from, p));
            }
        }
        chain
    }
}

proof fn lemma_occupant_row(nodes: Seq<NodeView>, rows: Seq<NodeView>, disk: Text) -> (row: int)
    requires
        occupant(nodes, rows, disk) is Some,
    ensures
        0 <= row < rows.len(),
        occupies(nodes, rows[row], disk),
        occupant(nodes, rows, disk) == Some(in_use(rows[row].mountpoint)),
    decreases rows.len(),
{
    if occupies(nodes, rows[0], disk) {
        0
    } else {
        let rest = rows.drop_first();
        let r = lemma_occupant_row(nodes, rest, disk);
        assert(rest[r] == rows[r + 1]);
        r + 1
    }
}

/// A disk may be erased exactly when it is writable, holds at least four
/// gibibytes and is on no chain of parents of anything mounted.
pub proof fn lemma_free_exactly_when(f: Seq<(Text, Text)>, nodes: Seq<NodeView>)
    ensures
        listed_disk(f, nodes).busy is None <==> {
            &&& value_of(f, "RO"@) != Some("1"@)
            &&& listed_bytes(f) >= 4 * 1024 * 1024 * 1024
            &&& forall|row: int, chain: Seq<Text>|
                0 <= row < nodes.len() && (#[trigger] nodes[row]).mountpoint.len() > 0
                    && #[trigger] is_chain(nodes, chain, nodes[row]) && chain.len() <= 8
                    ==> chain.last() != listed_kname(f)
        },
{
    let k = listed_kname(f);
    if occupant(nodes, nodes, k) is Some {
        lemma_ruled_out_by_a_chain(nodes, k);
    }
    assert forall|row: int, chain: Seq<Text>|
        0 <= row < nodes.len() && (#[trigger] nodes[row]).mountpoint.len() > 0
            && #[trigger] is_chain(nodes, chain, nodes[row]) && chain.len() <= 8
            && chain.last() == k implies occupant(nodes, nodes, k) is Some by {
        lemma_chain_rules_out(nodes, chain, row);
    }
}

/// Every line of the listing for a disk or an attached image with a path that
/// is no compressed memory has its disk in the list, with the size, path and
/// name that the line gives, and no other line has.
pub proof fn lemma_listing_is_complete(listing: Text, tree: Text, k: int)
    requires
        0 <= k < text::text_lines(listing).len(),
    ensures
        ({
            let f = fields(text::trim(text::text_lines(listing)[k]));
            let target = (value_of(f, "TYPE"@) == Some("disk"@) || value_of(f, "TYPE"@) == Some(
                "loop"@,
            )) && (value_of(f, "PATH"@) matches Some(p) && p.len() > 0 && !text::begins(
                p,
                "/dev/zram"@,
            ));
            let d = listed_disk(f, tree_rows(tree));
            &&& target ==> disk_list(listing, tree).contains(d)
            &&& target ==> Some(d.path) == value_of(f, "PATH"@)
            &&& value_of(f, "MODEL"@) is Some ==> Some(d.model) == value_of(f, "MODEL"@)
            &&& value_of(f, "TRAN"@) is Some ==> Some(d.transport) == value_of(f, "TRAN"@)
            &&& d.removable <==> value_of(f, "RM"@) == Some("1"@)
            &&& value_of(f, "KNAME"@) is Some ==> Some(listed_kname(f)) == value_of(f, "KNAME"@)
            &&& forall|n: u64|
                #![trigger text::decimal(n as nat)]
                value_of(f, "SIZE"@) == Some(text::decimal(n as nat)) ==> d.bytes == n
            &&& disk_list(listing, tree).len() <= text::text_lines(listing).len()
        }),
{
    broadcast use vstd::seq_lib::group_to_multiset_ensures;

    let lines = text::text_lines(listing);
    let rows = tree_rows(tree);
    let f = fields(text::trim(lines[k]));
    let d = listed_disk(f, rows);
    let list = targets(lines, rows);
    lemma_target_is_listed(lines, rows, k);
    lemma_largest_first(list);
    if list.contains(d) {
        assert(list.to_multiset().count(d) > 0);
        assert(ranked(list).to_multiset().count(d) > 0);
        assert(ranked(list).contains(d));
    }
    assert(ranked(list).len() == ranked(list).to_multiset().len());
    assert forall|n: u64|
        #![trigger text::decimal(n as nat)]
        value_of(f, "SIZE"@) == Some(text::decimal(n as nat)) implies d.bytes == n by {
        text::lemma_decimal(n as nat);
        let s = text::decimal(n as nat);
        assert(text::is_digit(s[0]));
        assert(text::unsigned(s) == s);
    }
}

proof fn lemma_target_is_listed(lines: Seq<Text>, nodes: Seq<NodeView>, k: int)
    requires
        0 <= k < lines.len(),
    ensures
        is_target(fields(text::trim(lines[k]))) ==> targets(lines, nodes).contains(
            listed_disk(fields(text::trim(lines[k])), nodes),
        ),
        targets(lines, nodes).len() <= lines.len(),
    decreases lines.len(),
{
    let rest = lines.drop_last();
    let all = targets(lines, nodes);
    let front = targets(rest, nodes);
    if rest.len() > 0 {
        lemma_target_is_listed(rest, nodes, if k < rest.len() { k } else { 0 });
    }
    let f = fields(text::trim(lines[k]));
    let d = listed_disk(f, nodes);
    if is_target(f) {
        if k < rest.len() {
            assert(rest[k] == lines[k]);
            let j = choose|j: int| 0 <= j < front.len() && front[j] == d;
            assert(all[j] == d);
        } else {
            assert(all[front.len() as int] == d);
        }
    }
}

/// A partition's device is the disk's path and the partition's number, with a
/// `p` between them exactly when the path ends in a digit. Different numbers
/// are different devices.
pub proof fn lemma_partition_names(d: DiskView, m: nat, n: nat)
    ensures
        d.path.len() > 0 && '0' <= d.path.last() <= '9' ==> d.partition(n) == d.path + "p"@
            + text::decimal(n),
        d.path.len() == 0 || !('0' <= d.path.last() <= '9') ==> d.partition(n) == d.path
            + text::decimal(n),
        d.partition(m) == d.partition(n) ==> m == n,
{
    text::lemma_decimal(m);
    text::lemma_decimal(n);
    let before = if d.numbered() {
        d.path + "p"@
    } else {
        d.path
    };
    let a = d.partition(m);
    let b = d.partition(n);
    assert(a.skip(before.len() as int) =~= text::decimal(m));
    assert(b.skip(before.len() as int) =~= text::decimal(n));
}

/// The word that confirms a disk is the last part of its path.
pub proof fn lemma_word_is_the_last_part(d: DiskView)
    ensures
        text::ends(d.path, d.word()),
        !d.word().contains('/'),
        d.word() != d.path ==> d.path.len() > d.word().len() && d.path[d.path.len()
            - d.word().len() - 1] == '/',
{
    text::lemma_after_last(d.path, '/');
}

/// A line of pairs gives back the pairs it was written with: each key and value
/// in order, when neither holds a quote, an equals sign or outer white space.
pub proof fn lemma_pairs_are_read_back(list: Seq<(Text, Text)>)
    requires
        forall|i: int| 0 <= i < list.len() ==> plain_pair(#[trigger] list[i]),
    ensures
        fields(written(list)) == list,
    decreases list.len(),
{
    if list.len() == 0 {
        let s = written(list);
        text::lemma_first_at(s, seq!['=', '"']);
        assert(fields(s) =~= list);
    } else {
        let rest = list.drop_first();
        assert(forall|i: int| 0 <= i < rest.len() ==> #[trigger] rest[i] == list[i + 1]);
        lemma_pairs_are_read_back(rest);
        lemma_first_pair(list[0].0, list[0].1, written(rest));
        assert(plain_pair(list[0]));
        assert(seq![list[0]] + rest =~= list);
    }
}

/// Whether a key or a value can be written in quotes as it is.
pub open spec fn plain(s: Text) -> bool {
    &&& !s.contains('"')
    &&& !s.contains('=')
    &&& s.len() > 0 ==> !text::is_space(s[0]) && !text::is_space(s.last())
}

/// Whether a key and its value can be written as they are.
pub open spec fn plain_pair(pair: (Text, Text)) -> bool {
    plain(pair.0) && plain(pair.1)
}

/// Pairs as lsblk writes them, each with a space before it.
pub open spec fn written(list: Seq<(Text, Text)>) -> Text
    decreases list.len(),
{
    if list.len() == 0 {
        Seq::empty()
    } else {
        seq![' '] + list[0].0 + seq!['=', '"'] + list[0].1 + seq!['"'] + written(list.drop_first())
    }
}

proof fn lemma_first_pair(key: Text, value: Text, rest: Text)
    requires
        plain(key),
        plain(value),
    ensures
        fields(seq![' '] + key + seq!['=', '"'] + value + seq!['"'] + rest) == seq![(key, value)]
            + fields(rest),
{
    let needle = seq!['=', '"'];
    let s = seq![' '] + key + needle + value + seq!['"'] + rest;
    let at = 1 + key.len() as int;
    text::lemma_first_at(s, needle);
    assert(s.subrange(at, at + 2) =~= needle);
    assert(text::occurs_at(s, needle, at));
    assert forall|i: int| 0 <= i < at implies !text::occurs_at(s, needle, i) by {
        if text::occurs_at(s, needle, i) {
            assert(s.subrange(i, i + 2)[0] == '=');
            assert(s[i] == '=');
            if i > 0 {
                assert(key[i - 1] == '=');
            }
        }
    }
    let eq = text::first_at(s, needle)->Some_0 as int;
    assert(eq == at);
    let after = s.skip(eq + 2);
    assert(after =~= value + seq!['"'] + rest);
    text::lemma_upto(after, '"');
    let end = text::upto(after, '"') as int;
    if end < value.len() {
        assert(value[end] == '"');
    }
    if end > value.len() {
        assert(after[value.len() as int] == '"');
    }
    assert(end == value.len());
    assert(after.take(end) =~= value);
    assert(after.skip(end + 1) =~= rest);
    assert(s.take(eq) =~= seq![' '] + key);
    text::lemma_trim_of_bare(seq![' '], key, Seq::empty());
    assert(seq![' '] + key + Seq::<char>::empty() =~= seq![' '] + key);
    text::lemma_trim_of_bare(Seq::empty(), value, Seq::empty());
    assert(Seq::<char>::empty() + value + Seq::<char>::empty() =~= value);
}

/// A size in tenths of a unit, written with one decimal.
pub open spec fn in_tenths(tenths: nat, letter: Text) -> Text {
    text::decimal(tenths / 10) + "."@ + text::decimal(tenths % 10) + letter
}

/// Whether `bytes` reach no unit larger than this one.
pub open spec fn is_unit(unit: nat, letter: Text, bytes: nat) -> bool {
    ||| unit == 1024 && letter == "K"@ && bytes < 1024 * 1024
    ||| unit == 1024 * 1024 && letter == "M"@ && bytes < 1024 * 1024 * 1024
    ||| unit == 1024 * 1024 * 1024 && letter == "G"@ && bytes < 1024 * 1024 * 1024 * 1024
    ||| unit == 1024 * 1024 * 1024 * 1024 && letter == "T"@
}

/// A size is written in the largest unit that it reaches, right to the nearest
/// tenth of it: for every size that double precision holds exactly, what is
/// written differs from the size by half a tenth at most. Below the first unit
/// it is written as it is.
pub proof fn lemma_size_is_near(bytes: nat, unit: nat, letter: Text)
    requires
        bytes < 0x20_0000_0000_0000,
        is_unit(unit, letter, bytes),
    ensures
        bytes < 1024 ==> human_size(bytes) == text::decimal(bytes) + " B"@,
        bytes >= unit ==> exists|tenths: nat|
            {
                &&& human_size(bytes) == #[trigger] in_tenths(tenths, letter)
                &&& 2 * (tenths * unit) <= 20 * bytes + unit
                &&& 20 * bytes <= 2 * (tenths * unit) + unit
            },
{
    assert(spacing(bytes) == 1);
    assert(half_even(bytes, 1) == bytes) by {
        assert(bytes / 1 == bytes && bytes % 1 == 0);
    }
    assert(nearest_double(bytes) == bytes);
    if bytes >= unit {
        let u = unit_index(bytes);
        assert(unit_size(u) == unit);
        assert(unit_letter(u) == letter);
        let tenths = half_even(10 * bytes, unit);
        assert(human_size(bytes) == in_tenths(tenths, letter));
        lemma_half_even(10 * bytes, unit);
    }
}

proof fn lemma_half_even(n: nat, d: nat)
    requires
        d > 0,
    ensures
        2 * (half_even(n, d) * d) <= 2 * n + d,
        2 * n <= 2 * (half_even(n, d) * d) + d,
{
    let q = n / d;
    let r = n % d;
    assert(n == q * d + r && 0 <= r < d) by (nonlinear_arith)
        requires
            q == n / d,
            r == n % d,
            d > 0,
    ;
    assert((q + 1) * d == q * d + d) by (nonlinear_arith);
}

/// Whether a line of the listing is one for a disk or an attached image, with a
/// path, and not compressed memory.
pub open spec fn lists_a_target(f: Seq<(Text, Text)>) -> bool {
    &&& value_of(f, "TYPE"@) == Some("disk"@) || value_of(f, "TYPE"@) == Some("loop"@)
    &&& value_of(f, "PATH"@) matches Some(p) && p.len() > 0 && !text::begins(p, "/dev/zram"@)
}

/// No disk is made up: each one of the list has its line in the listing, and
/// that line is one for a disk.
pub proof fn lemma_listing_is_sound(listing: Text, tree: Text, i: int)
    requires
        0 <= i < disk_list(listing, tree).len(),
    ensures
        exists|k: int|
            #![trigger text::text_lines(listing)[k]]
            0 <= k < text::text_lines(listing).len() && {
                let f = fields(text::trim(text::text_lines(listing)[k]));
                lists_a_target(f) && disk_list(listing, tree)[i] == listed_disk(
                    f,
                    tree_rows(tree),
                )
            },
{
    lemma_disk_comes_from_listing(listing, tree, i);
}

/// The value of a key is the last that was given for it.
pub proof fn lemma_last_value_counts(list: Seq<(Text, Text)>, key: Text, other: Text, value: Text)
    ensures
        value_of(list.push((key, value)), key) == Some(value),
        key != other ==> value_of(list.push((other, value)), key) == value_of(list, key),
        value_of(Seq::<(Text, Text)>::empty(), key) is None,
{
    assert(list.push((key, value)).drop_last() =~= list);
    assert(list.push((other, value)).drop_last() =~= list);
}

/// The device tree has a row for every line, with the name, the parent and the
/// mount point that the line gives, or nothing where it gives none.
pub proof fn lemma_tree_has_every_line(tree: Text, i: int)
    requires
        0 <= i < text::text_lines(tree).len(),
    ensures
        tree_rows(tree).len() == text::text_lines(tree).len(),
        ({
            let f = fields(text::trim(text::text_lines(tree)[i]));
            let row = tree_rows(tree)[i];
            &&& value_of(f, "KNAME"@) == Some(row.kname) || (value_of(f, "KNAME"@) is None
                && row.kname.len() == 0)
            &&& value_of(f, "PKNAME"@) == Some(row.parent) || (value_of(f, "PKNAME"@) is None
                && row.parent.len() == 0)
            &&& value_of(f, "MOUNTPOINT"@) == Some(row.mountpoint) || (value_of(
                f,
                "MOUNTPOINT"@,
            ) is None && row.mountpoint.len() == 0)
        }),
{
}

/// Disks that already come largest first stay as they are, those of one size in
/// the order they were listed in.
pub proof fn lemma_ranked_stay_ranked(list: Seq<DiskView>)
    requires
        forall|i: int, j: int|
            0 <= i < j < list.len() ==> (#[trigger] list[i]).bytes >= (#[trigger] list[j]).bytes,
    ensures
        ranked(list) == list,
    decreases list.len(),
{
    if list.len() == 0 {
        assert(ranked(list) =~= list);
    } else {
        let front = list.drop_last();
        assert forall|i: int, j: int| 0 <= i < j < front.len() implies (#[trigger] front[i]).bytes
            >= (#[trigger] front[j]).bytes by {
            assert(front[i] == list[i] && front[j] == list[j]);
        }
        lemma_ranked_stay_ranked(front);
        if front.len() > 0 {
            assert(list[list.len() - 2].bytes >= list[list.len() - 1].bytes);
        }
        assert(front.push(list.last()) =~= list);
    }
}

/// Two disks of one size stay in the order they were listed in, wherever they
/// stand: a disk goes behind all that are not smaller, and before the others.
pub proof fn lemma_seated_behind_its_equals(list: Seq<DiskView>, d: DiskView)
    requires
        forall|i: int, j: int|
            0 <= i < j < list.len() ==> (#[trigger] list[i]).bytes >= (#[trigger] list[j]).bytes,
    ensures
        exists|n: int|
            {
                &&& 0 <= n <= list.len()
                &&& seated(list, d) == #[trigger] list.take(n) + seq![d] + list.skip(n)
                &&& forall|i: int| 0 <= i < n ==> (#[trigger] list[i]).bytes >= d.bytes
                &&& forall|i: int| n <= i < list.len() ==> (#[trigger] list[i]).bytes < d.bytes
            },
    decreases list.len(),
{
    if list.len() == 0 || list.last().bytes >= d.bytes {
        let n = list.len() as int;
        assert(list.take(n) =~= list);
        assert(seated(list, d) =~= list.take(n) + seq![d] + list.skip(n));
        assert forall|i: int| 0 <= i < n implies (#[trigger] list[i]).bytes >= d.bytes by {
            if i < n - 1 {
                assert(list[i].bytes >= list[n - 1].bytes);
            }
        }
    } else {
        let front = list.drop_last();
        assert forall|i: int, j: int| 0 <= i < j < front.len() implies (#[trigger] front[i]).bytes
            >= (#[trigger] front[j]).bytes by {
            assert(front[i] == list[i] && front[j] == list[j]);
        }
        lemma_seated_behind_its_equals(front, d);
        let n = choose|n: int|
            {
                &&& 0 <= n <= front.len()
                &&& seated(front, d) == #[trigger] front.take(n) + seq![d] + front.skip(n)
                &&& forall|i: int| 0 <= i < n ==> (#[trigger] front[i]).bytes >= d.bytes
                &&& forall|i: int| n <= i < front.len() ==> (#[trigger] front[i]).bytes < d.bytes
            };
        assert(list.take(n) =~= front.take(n));
        assert(list.skip(n) =~= front.skip(n).push(list.last()));
        assert(seated(list, d) =~= list.take(n) + seq![d] + list.skip(n));
        assert forall|i: int| 0 <= i < n implies (#[trigger] list[i]).bytes >= d.bytes by {
            assert(front[i] == list[i]);
        }
        assert forall|i: int| n <= i < list.len() implies (#[trigger] list[i]).bytes < d.bytes by {
            if i < front.len() {
                assert(front[i] == list[i]);
            }
        }
    }
}

/// A size that is missing or no number counts as none, and without a kernel name
/// the last part of the path stands for it.
pub proof fn lemma_missing_fields(f: Seq<(Text, Text)>)
    ensures
        value_of(f, "SIZE"@) is None ==> listed_bytes(f) == 0,
        value_of(f, "SIZE"@) matches Some(s) ==> (!text::is_u64(s) ==> listed_bytes(f) == 0),
        value_of(f, "KNAME"@) is None ==> (value_of(f, "PATH"@) matches Some(p) ==> listed_kname(f)
            == text::after_last(p, '/')),
{
}

} // verus!
