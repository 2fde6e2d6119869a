//! The checklist that the benchmark prints before it measures latency.

use vstd::prelude::*;

use crate::text;
use crate::text::{current_cpus_allowed, read_trimmed};

verus! {

/// What the kernel tells of the RDMA device and of this process.
pub struct Hardware {
    pub nic: String,
    pub parent: String,
    pub numa: String,
    pub cpus_allowed: String,
}

/// The trimmed text of a file, or `default` where it is missing or blank.
pub open spec fn text_or(contents: Option<&str>, default: Seq<char>) -> Seq<char> {
    match contents {
        Some(s) if text::trimmed(s@).len() > 0 => text::trimmed(s@),
        _ => default,
    }
}

/// The value of a field of a file, or `default` where there is none.
pub open spec fn field_or(contents: Option<&str>, name: Seq<char>, default: Seq<char>) -> Seq<
    char,
> {
    match contents {
        Some(s) => match text::field(s@, name) {
            Some(value) => value,
            None => default,
        },
        None => default,
    }
}

fn or_default(value: Option<String>, default: &str) -> (text: String)
    ensures
        text@ == (match value {
            Some(s) => s@,
            None => default@,
        }),
{
    match value {
        Some(s) => s,
        None => default.to_owned(),
    }
}

/// `a`, then `b`.
fn pair(a: &str, b: &str) -> (text: String)
    ensures
        text@ == a@ + b@,
{
    let mut text = a.to_owned();
    text.append(b);
    text
}

/// `a`, `b` and `c`, one behind the other.
fn cat(a: &str, b: &str, c: &str) -> (text: String)
    ensures
        text@ == a@ + b@ + c@,
{
    let mut text = a.to_owned();
    text.append(b);
    text.append(c);
    text
}

/// The device to look at: the one that the environment names, else the first soft RoCE device.
pub fn device_name(env: Option<&str>) -> (nic: String)
    ensures
        nic@ == (match env {
            Some(s) => s@,
            None => "rxe0"@,
        }),
{
    match env {
        Some(s) => s.to_owned(),
        None => "rxe0".to_owned(),
    }
}

/// The file that names the network device of an RDMA device.
pub fn parent_path(nic: &str) -> (path: String)
    ensures
        path@ == "/sys/class/infiniband/"@ + nic@ + "/parent"@,
{
    cat("/sys/class/infiniband/", nic, "/parent")
}

/// The file that names the NUMA node of an RDMA device.
pub fn numa_path(nic: &str) -> (path: String)
    ensures
        path@ == "/sys/class/infiniband/"@ + nic@ + "/device/numa_node"@,
{
    cat("/sys/class/infiniband/", nic, "/device/numa_node")
}

/// The lines of the checklist, where `cpulist` is what is known of the CPUs on the NUMA node.
pub open spec fn checklist(
    nic: Seq<char>,
    parent: Seq<char>,
    numa: Seq<char>,
    cpus_allowed: Seq<char>,
    cpulist: Option<Seq<char>>,
) -> Seq<Seq<char>> {
    let head = seq![
        "\n====== Phase 9 Hardware Latency Checklist ==========="@,
        "Run perf with:"@,
        "  perf stat -e cycles,instructions,cache-misses,cpu-migrations ./target/release/bench"@,
        "Pin benchmark with:"@,
        "  taskset -c <core-on-nic-numa-node> ./target/release/bench"@,
        "Or let this binary pin itself:"@,
        "  PIN_CPU=<core> ./target/release/bench"@,
        "RDMA device: "@ + nic + ", parent netdev: "@ + parent + ", NUMA node: "@ + numa,
        "Current process allowed CPUs: "@ + cpus_allowed,
    ];
    let node = if !has_node(numa) {
        seq![
            "NUMA node -1 means this device is virtual/unknown; pinning still helps migration spikes."@,
        ]
    } else {
        match cpulist {
            Some(cpus) => seq!["CPUs on NIC NUMA node "@ + numa + ": "@ + cpus],
            None => seq![],
        }
    };
    let tail = seq![
        "Inspect interrupt coalescing with:"@,
        "  ethtool -c "@ + parent,
        "For latency experiments, try:"@,
        "  sudo ethtool -C "@ + parent + " rx-usecs 0"@,
        "====================================================="@,
    ];
    head + node + tail
}

/// Whether `numa` names a NUMA node.
pub open spec fn has_node(numa: Seq<char>) -> bool {
    numa != "-1"@ && numa != "unknown"@
}

/// The texts of some lines.
pub open spec fn texts(lines: Seq<String>) -> Seq<Seq<char>> {
    lines.map_values(|line: String| line@)
}

/// Adds a line.
fn push_line(lines: &mut Vec<String>, line: String)
    ensures
        texts(final(lines)@) == texts(old(lines)@).push(line@),
{
    lines.push(line);
    assert(texts(lines@) =~= texts(old(lines)@).push(line@));
}

impl Hardware {
    /// Puts together what the files of the kernel hold: `parent` and `numa` of the device, and
    /// the status file of this process.
    pub fn new(nic: String, parent: Option<&str>, numa: Option<&str>, status: Option<&str>) -> (hw:
        Self)
        ensures
            hw.nic@ == nic@,
            hw.parent@ == text_or(parent, "unknown"@),
            hw.numa@ == text_or(numa, "-1"@),
            hw.cpus_allowed@ == field_or(status, "Cpus_allowed_list:"@, "unknown"@),
    {
        Hardware {
            nic,
            parent: or_default(read_trimmed(parent), "unknown"),
            numa: or_default(read_trimmed(numa), "-1"),
            cpus_allowed: or_default(current_cpus_allowed(status), "unknown"),
        }
    }

    /// Whether the NUMA node of the device is known.
    fn knows_node(&self) -> (known: bool)
        ensures
            known == has_node(self.numa@),
    {
        self.numa != "-1".to_owned() && self.numa != "unknown".to_owned()
    }

    /// The file that lists the CPUs on the NUMA node of the device, where that node is known.
    pub fn cpulist_path(&self) -> (path: Option<String>)
        ensures
            match path {
                Some(p) => has_node(self.numa@) && p@ == "/sys/devices/system/node/node"@
                    + self.numa@ + "/cpulist"@,
                None => !has_node(self.numa@),
            },
    {
        if self.knows_node() {
            Some(cat("/sys/devices/system/node/node", self.numa.as_str(), "/cpulist"))
        } else {
            None
        }
    }

    /// The lines of the checklist. `cpulist` is what the file of that name holds.
    pub fn checklist(&self, cpulist: Option<&str>) -> (lines: Vec<String>)
        ensures
            texts(lines@) == checklist(
                self.nic@,
                self.parent@,
                self.numa@,
                self.cpus_allowed@,
                match cpulist {
                    Some(s) if text::trimmed(s@).len() > 0 => Some(text::trimmed(s@)),
                    _ => None,
                },
            ),
    {
        let mut lines: Vec<String> = Vec::new();
        let nic = self.nic.as_str();
        let parent = self.parent.as_str();
        let numa = self.numa.as_str();
        push_line(
            &mut lines,
            "\n====== Phase 9 Hardware Latency Checklist ===========".to_owned(),
        );
        push_line(&mut lines, "Run perf with:".to_owned());
        push_line(
            &mut lines,
            "  perf stat -e cycles,instructions,cache-misses,cpu-migrations ./target/release/bench".to_owned(),
        );
        push_line(&mut lines, "Pin benchmark with:".to_owned());
        push_line(
            &mut lines,
            "  taskset -c <core-on-nic-numa-node> ./target/release/bench".to_owned(),
        );
        push_line(&mut lines, "Or let this binary pin itself:".to_owned());
        push_line(&mut lines, "  PIN_CPU=<core> ./target/release/bench".to_owned());
        let device = cat("RDMA device: ", nic, ", parent netdev: ");
        push_line(&mut lines, pair(cat(device.as_str(), parent, ", NUMA node: ").as_str(), numa));
        push_line(
            &mut lines,
            pair("Current process allowed CPUs: ", self.cpus_allowed.as_str()),
        );
        let ghost head = texts(lines@);
        if self.knows_node() {
            if let Some(cpus) = read_trimmed(cpulist) {
                let node = cat("CPUs on NIC NUMA node ", numa, ": ");
                push_line(&mut lines, pair(node.as_str(), cpus.as_str()));
            }
        } else {
            push_line(
                &mut lines,
                "NUMA node -1 means this device is virtual/unknown; pinning still helps migration spikes.".to_owned(),
            );
        }
        push_line(&mut lines, "Inspect interrupt coalescing with:".to_owned());
        push_line(&mut lines, pair("  ethtool -c ", parent));
        push_line(&mut lines, "For latency experiments, try:".to_owned());
        push_line(&mut lines, cat("  sudo ethtool -C ", parent, " rx-usecs 0"));
        push_line(
            &mut lines,
            "=====================================================".to_owned(),
        );
        lines
    }
}

/// What is told of a file: its text without white space around it, where that is any; else what
/// stands for a missing one.
pub proof fn law_blank_files_count_as_missing(contents: Option<&str>, default: Seq<char>)
    ensures
        contents is None ==> text_or(contents, default) == default,
        contents is Some && (forall|i: int|
            0 <= i < contents->Some_0@.len() ==> text::is_space(#[trigger] contents->Some_0@[i]))
            ==> text_or(contents, default) == default,
        contents is Some && (exists|i: int|
            0 <= i < contents->Some_0@.len() && !text::is_space(#[trigger] contents->Some_0@[i]))
            ==> text_or(contents, default) == text::trimmed(contents->Some_0@),
{
    if contents is Some {
        let s = contents->Some_0@;
        let (i, j) = text::law_trimming_takes_white_space_off(s);
        if i < j {
            assert(!text::is_space(s[i]));
        }
    }
}

/// The checklist names the device, its parent and its NUMA node, and the CPUs that the process may
/// run on. It has one line on the CPUs of the node where the node is known and these are; one that
/// says so where the node is not known; and none in between.
pub proof fn law_checklist_names_the_hardware(
    nic: Seq<char>,
    parent: Seq<char>,
    numa: Seq<char>,
    cpus_allowed: Seq<char>,
    cpulist: Option<Seq<char>>,
)
    ensures
        ({
            let lines = checklist(nic, parent, numa, cpus_allowed, cpulist);
            let known = numa != "-1"@ && numa != "unknown"@;
            let n = lines.len();
            &&& n == (if known && cpulist is None {
                14int
            } else {
                15
            })
            &&& lines[0] == "\n====== Phase 9 Hardware Latency Checklist ==========="@
            &&& lines[1] == "Run perf with:"@
            &&& lines[2]
                == "  perf stat -e cycles,instructions,cache-misses,cpu-migrations ./target/release/bench"@
            &&& lines[3] == "Pin benchmark with:"@
            &&& lines[4] == "  taskset -c <core-on-nic-numa-node> ./target/release/bench"@
            &&& lines[5] == "Or let this binary pin itself:"@
            &&& lines[6] == "  PIN_CPU=<core> ./target/release/bench"@
            &&& lines[7] == "RDMA device: "@ + nic + ", parent netdev: "@ + parent
                + ", NUMA node: "@ + numa
            &&& lines[8] == "Current process allowed CPUs: "@ + cpus_allowed
            &&& known && cpulist is Some ==> lines[9] == "CPUs on NIC NUMA node "@ + numa + ": "@
                + cpulist->Some_0
            &&& !known ==> lines[9]
                == "NUMA node -1 means this device is virtual/unknown; pinning still helps migration spikes."@
            &&& lines[n - 5] == "Inspect interrupt coalescing with:"@
            &&& lines[n - 4] == "  ethtool -c "@ + parent
            &&& lines[n - 3] == "For latency experiments, try:"@
            &&& lines[n - 2] == "  sudo ethtool -C "@ + parent + " rx-usecs 0"@
            &&& lines[n - 1] == "====================================================="@
        }),
{
}

/// The texts of some lines are what they say, line by line.
pub proof fn law_texts_are_those_of_the_lines(lines: Seq<String>, i: int)
    requires
        0 <= i < lines.len(),
    ensures
        texts(lines).len() == lines.len(),
        texts(lines)[i] == lines[i]@,
{
}

/// What is told of a field: its value, where the file has it; else what stands for a missing one.
pub proof fn law_missing_fields(contents: Option<&str>, name: Seq<char>, default: Seq<char>)
    ensures
        contents is None || text::field(contents->Some_0@, name) is None ==> field_or(
            contents,
            name,
            default,
        ) == default,
        contents is Some && text::field(contents->Some_0@, name) is Some ==> Some(
            field_or(contents, name, default),
        ) == text::field(contents->Some_0@, name),
{
}

} // verus!
