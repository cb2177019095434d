use crate::agent::status::Sample;
use crate::cli::{LogLevel, OutputFormat};
use crate::connection::{Measurement, CHANNEL_LIMIT};
use crate::text;
use crate::time;
use vstd::prelude::*;
use vstd::string::*;

verus! {

/// The measurement channels every format renders, in output order. Keeping the
/// list in one place keeps the per-format schemas from drifting apart.
pub open spec fn channel_names() -> Seq<Seq<char>> {
    seq!["voltage"@, "ampere"@, "wattage"@, "power_factor"@]
}

pub open spec fn channel_helps() -> Seq<Seq<char>> {
    seq![
        "Instantaneous voltage in volts"@,
        "Instantaneous current in amperes"@,
        "Instantaneous power in watts"@,
        "Power factor (wattage / (voltage * ampere))"@,
    ]
}

fn names() -> (v: Vec<&'static str>)
    ensures
        v@.len() == 4,
        forall|i: int| 0 <= i < 4 ==> (#[trigger] v@[i])@ == channel_names()[i],
{
    vec!["voltage", "ampere", "wattage", "power_factor"]
}

fn helps() -> (v: Vec<&'static str>)
    ensures
        v@.len() == 4,
        forall|i: int| 0 <= i < 4 ==> (#[trigger] v@[i])@ == channel_helps()[i],
{
    vec![
        "Instantaneous voltage in volts",
        "Instantaneous current in amperes",
        "Instantaneous power in watts",
        "Power factor (wattage / (voltage * ampere))",
    ]
}

/// One measurement as it is printed: each number in full precision, and those
/// that people read rounded too.
#[derive(Debug)]
pub struct Rendered {
    pub voltage: String,
    pub ampere: String,
    pub wattage: String,
    pub power_factor: String,
    /// The power factor to four decimal places.
    pub power_factor_rounded: String,
    /// The session's energy so far, in watt-hours.
    pub energy: String,
    /// The same to three decimal places.
    pub energy_rounded: String,
    /// The device's time, in seconds from 1970-01-01T00:00:00Z.
    pub epoch: i64,
}

impl Rendered {
    /// Whether the time is one that a timestamp can be.
    pub open spec fn wf(self) -> bool {
        time::FIRST_SECOND <= self.epoch <= time::LAST_SECOND
    }

    /// The channels' numbers, in output order.
    pub open spec fn values(self) -> Seq<Seq<char>> {
        seq![self.voltage@, self.ampere@, self.wattage@, self.power_factor@]
    }

    fn value(&self, i: usize) -> (r: &str)
        requires
            i < 4,
        ensures
            r@ == self.values()[i as int],
    {
        if i == 0 {
            self.voltage.as_str()
        } else if i == 1 {
            self.ampere.as_str()
        } else if i == 2 {
            self.wattage.as_str()
        } else {
            self.power_factor.as_str()
        }
    }
}

/// What `f` says of each channel, in order.
pub open spec fn each(f: spec_fn(int) -> Seq<char>) -> Seq<char> {
    f(0) + f(1) + f(2) + f(3)
}

/// The channels as `before`, name, `between`, number.
pub open spec fn fields(m: Rendered, before: Seq<char>, between: Seq<char>) -> Seq<Seq<char>> {
    Seq::new(4, |i: int| before + channel_names()[i] + between + m.values()[i])
}

pub open spec fn plain(m: Rendered) -> Seq<char> {
    "V = "@ + m.voltage@ + ", A = "@ + m.ampere@ + ", W = "@ + m.wattage@ + ", PF = "@
        + m.power_factor_rounded@ + ", Wh = "@ + m.energy_rounded@ + "\n"@
}

pub open spec fn mackerel_line(name: Seq<char>, m: Rendered, i: int) -> Seq<char> {
    name + "."@ + channel_names()[i] + "\t"@ + m.values()[i] + "\t"@ + text::integer(m.epoch as int)
        + "\n"@
}

pub open spec fn mackerel(name: Seq<char>, m: Rendered) -> Seq<char> {
    each(|i: int| mackerel_line(name, m, i))
}

pub open spec fn csv_header() -> Seq<char> {
    "time,"@ + text::join(channel_names(), ","@) + ",energy_wh\n"@
}

pub open spec fn csv_row(m: Rendered) -> Seq<char> {
    text::integer(m.epoch as int) + ","@ + text::join(m.values(), ","@) + ","@ + m.energy@ + "\n"@
}

pub open spec fn ltsv(m: Rendered) -> Seq<char> {
    "time:"@ + text::integer(m.epoch as int) + "\t"@ + text::join(
        fields(m, Seq::empty(), ":"@),
        "\t"@,
    ) + "\tenergy_wh:"@ + m.energy@ + "\n"@
}

pub open spec fn json(m: Rendered) -> Seq<char> {
    "{\"time\":"@ + text::integer(m.epoch as int) + ","@ + text::join(
        fields(m, "\""@, "\":"@),
        ","@,
    ) + ",\"energy_wh\":"@ + m.energy@ + "}\n"@
}

/// The two lines that declare a gauge.
pub open spec fn declaration(prefix: Seq<char>, name: Seq<char>, help: Seq<char>) -> Seq<char> {
    "# HELP "@ + prefix + "_"@ + name + " "@ + help + "\n# TYPE "@ + prefix + "_"@ + name
        + " gauge\n"@
}

pub open spec fn prometheus_header(prefix: Seq<char>) -> Seq<char> {
    each(|i: int| declaration(prefix, channel_names()[i], channel_helps()[i])) + declaration(
        prefix,
        "energy_wh"@,
        "Energy accumulated this session in watt-hours"@,
    )
}

/// A gauge with its time, in milliseconds.
pub open spec fn gauge_at(
    prefix: Seq<char>,
    name: Seq<char>,
    value: Seq<char>,
    epoch: int,
) -> Seq<char> {
    prefix + "_"@ + name + " "@ + value + " "@ + text::integer(epoch * 1000) + "\n"@
}

pub open spec fn prometheus_values(prefix: Seq<char>, m: Rendered) -> Seq<char> {
    each(|i: int| gauge_at(prefix, channel_names()[i], m.values()[i], m.epoch as int)) + gauge_at(
        prefix,
        "energy_wh"@,
        m.energy@,
        m.epoch as int,
    )
}

/// What precedes the first measurement.
pub open spec fn header(format: OutputFormat, prefix: Seq<char>) -> Seq<char> {
    match format {
        OutputFormat::Csv => csv_header(),
        OutputFormat::Prometheus => prometheus_header(prefix),
        _ => Seq::empty(),
    }
}

/// A measurement on its own.
pub open spec fn body(format: OutputFormat, prefix: Seq<char>, m: Rendered) -> Seq<char> {
    match format {
        OutputFormat::Plain => plain(m),
        OutputFormat::Json => json(m),
        OutputFormat::Csv => csv_row(m),
        OutputFormat::Ltsv => ltsv(m),
        OutputFormat::Prometheus => prometheus_values(prefix, m),
        OutputFormat::Mackerel => mackerel(prefix, m),
    }
}

fn append_declaration(s: &mut String, prefix: &str, name: &str, help: &str)
    ensures
        final(s)@ == old(s)@ + declaration(prefix@, name@, help@),
{
    let ghost before = s@;
    s.append("# HELP ");
    s.append(prefix);
    s.append("_");
    s.append(name);
    s.append(" ");
    s.append(help);
    s.append("\n# TYPE ");
    s.append(prefix);
    s.append("_");
    s.append(name);
    s.append(" gauge\n");
    assert(s@ =~= before + declaration(prefix@, name@, help@));
}

fn append_gauge_at(s: &mut String, prefix: &str, name: &str, value: &str, epoch: i64)
    requires
        time::FIRST_SECOND <= epoch <= time::LAST_SECOND,
    ensures
        final(s)@ == old(s)@ + gauge_at(prefix@, name@, value@, epoch as int),
{
    let ghost before = s@;
    s.append(prefix);
    s.append("_");
    s.append(name);
    s.append(" ");
    s.append(value);
    s.append(" ");
    s.append(text::integer_string(epoch * 1000).as_str());
    s.append("\n");
    assert(s@ =~= before + gauge_at(prefix@, name@, value@, epoch as int));
}

/// The numbers or the names, with `before` and `between` around the names.
fn field_strings(m: &Rendered, before: &str, between: &str) -> (v: Vec<String>)
    ensures
        v@.map_values(|t: String| t@) == fields(*m, before@, between@),
{
    let names = names();
    let mut v: Vec<String> = Vec::new();
    let mut i: usize = 0;
    let ghost f = |t: String| t@;
    while i < 4
        invariant
            i <= 4,
            f == (|t: String| t@),
            names@.len() == 4,
            forall|k: int| 0 <= k < 4 ==> (#[trigger] names@[k])@ == channel_names()[k],
            v@.map_values(f) == fields(*m, before@, between@).take(i as int),
        decreases 4 - i,
    {
        let ghost so_far = v@;
        let mut s = before.to_owned();
        s.append(names[i]);
        s.append(between);
        s.append(m.value(i));
        v.push(s);
        i = i + 1;
        proof {
            let all = fields(*m, before@, between@);
            assert(s@ == all[i - 1]);
            assert(v@.map_values(f) =~= so_far.map_values(f).push(s@));
            assert(all.take(i as int) =~= all.take(i - 1).push(all[i - 1]));
        }
    }
    proof {
        let all = fields(*m, before@, between@);
        assert(all.take(4) =~= all);
    }
    v
}

/// Renders measurements in the requested format. Formats that need a header
/// (CSV) or a metric declaration block (Prometheus) get it once, before the
/// first measurement.
#[derive(Debug)]
pub struct Printer {
    format: OutputFormat,
    prefix: String,
    header_printed: bool,
}

impl Printer {
    pub closed spec fn format(self) -> OutputFormat {
        self.format
    }

    pub closed spec fn prefix(self) -> Seq<char> {
        self.prefix@
    }

    /// Whether a measurement was rendered already.
    pub closed spec fn started(self) -> bool {
        self.header_printed
    }

    pub fn new(format: OutputFormat, prefix: &str) -> (p: Printer)
        ensures
            p.format() == format,
            p.prefix() == prefix@,
            !p.started(),
    {
        Printer { format, prefix: prefix.to_owned(), header_printed: false }
    }

    /// Render one measurement, to be written to stdout as it is.
    pub fn print(&mut self, m: &Rendered) -> (s: String)
        requires
            m.wf(),
        ensures
            final(self).format() == old(self).format(),
            final(self).prefix() == old(self).prefix(),
            final(self).started(),
            s@ == (if old(self).started() {
                Seq::empty()
            } else {
                header(old(self).format(), old(self).prefix())
            }) + body(old(self).format(), old(self).prefix(), *m),
            s@ == shown(old(self).format(), old(self).prefix(), old(self).started(), *m),
    {
        let mut s = String::new();
        if !self.header_printed {
            self.append_header(&mut s);
            self.header_printed = true;
        }
        let ghost head = s@;
        let epoch = text::integer_string(m.epoch);
        match self.format {
            OutputFormat::Plain => {
                s.append("V = ");
                s.append(m.voltage.as_str());
                s.append(", A = ");
                s.append(m.ampere.as_str());
                s.append(", W = ");
                s.append(m.wattage.as_str());
                s.append(", PF = ");
                s.append(m.power_factor_rounded.as_str());
                s.append(", Wh = ");
                s.append(m.energy_rounded.as_str());
                s.append("\n");
            },
            OutputFormat::Mackerel => {
                let names = names();
                let ghost f = |i: int| mackerel_line(self.prefix@, *m, i);
                let mut i: usize = 0;
                let ghost mut done = Seq::<char>::empty();
                while i < 4
                    invariant
                        i <= 4,
                        names@.len() == 4,
                        forall|k: int| 0 <= k < 4 ==> (#[trigger] names@[k])@ == channel_names()[k],
                        epoch@ == text::integer(m.epoch as int),
                        f == (|i: int| mackerel_line(self.prefix@, *m, i)),
                        done == first(f, i as nat),
                        s@ == head + done,
                    decreases 4 - i,
                {
                    s.append(self.prefix.as_str());
                    s.append(".");
                    s.append(names[i]);
                    s.append("\t");
                    s.append(m.value(i));
                    s.append("\t");
                    s.append(epoch.as_str());
                    s.append("\n");
                    proof {
                        assert(s@ =~= head + (done + f(i as int)));
                        done = done + f(i as int);
                    }
                    i = i + 1;
                }
                proof {
                    lemma_first(f);
                }
            },
            OutputFormat::Csv => {
                let values = self.values(m);
                s.append(epoch.as_str());
                s.append(",");
                s.append(text::joined(&values, ",").as_str());
                s.append(",");
                s.append(m.energy.as_str());
                s.append("\n");
            },
            OutputFormat::Ltsv => {
                let fields = field_strings(m, "", ":");
                proof {
                    reveal_strlit("");
                    assert(""@ =~= Seq::<char>::empty());
                }
                s.append("time:");
                s.append(epoch.as_str());
                s.append("\t");
                s.append(text::joined(&fields, "\t").as_str());
                s.append("\tenergy_wh:");
                s.append(m.energy.as_str());
                s.append("\n");
            },
            OutputFormat::Json => {
                let fields = field_strings(m, "\"", "\":");
                s.append("{\"time\":");
                s.append(epoch.as_str());
                s.append(",");
                s.append(text::joined(&fields, ",").as_str());
                s.append(",\"energy_wh\":");
                s.append(m.energy.as_str());
                s.append("}\n");
            },
            OutputFormat::Prometheus => {
                let names = names();
                let prefix = self.prefix.as_str();
                let ghost f = |i: int|
                    gauge_at(prefix@, channel_names()[i], m.values()[i], m.epoch as int);
                let mut i: usize = 0;
                let ghost mut done = Seq::<char>::empty();
                while i < 4
                    invariant
                        i <= 4,
                        m.wf(),
                        names@.len() == 4,
                        forall|k: int| 0 <= k < 4 ==> (#[trigger] names@[k])@ == channel_names()[k],
                        f == (|i: int|
                            gauge_at(prefix@, channel_names()[i], m.values()[i], m.epoch as int)),
                        done == first(f, i as nat),
                        s@ == head + done,
                    decreases 4 - i,
                {
                    append_gauge_at(&mut s, prefix, names[i], m.value(i), m.epoch);
                    proof {
                        assert(s@ =~= head + (done + f(i as int)));
                        done = done + f(i as int);
                    }
                    i = i + 1;
                }
                proof {
                    lemma_first(f);
                }
                append_gauge_at(&mut s, prefix, "energy_wh", m.energy.as_str(), m.epoch);
            },
        }
        assert(s@ =~= head + body(self.format, self.prefix@, *m));
        s
    }

    fn values(&self, m: &Rendered) -> (v: Vec<String>)
        ensures
            v@.map_values(|t: String| t@) == m.values(),
    {
        let v = vec![
            m.voltage.clone(),
            m.ampere.clone(),
            m.wattage.clone(),
            m.power_factor.clone(),
        ];
        assert(v@.map_values(|t: String| t@) =~= m.values());
        v
    }

    fn append_header(&self, s: &mut String)
        requires
            old(s)@.len() == 0,
        ensures
            final(s)@ == header(self.format, self.prefix@),
    {
        match self.format {
            OutputFormat::Csv => {
                let names = vec![
                    "voltage".to_owned(),
                    "ampere".to_owned(),
                    "wattage".to_owned(),
                    "power_factor".to_owned(),
                ];
                proof {
                    assert(names@.map_values(|t: String| t@) =~= channel_names());
                }
                s.append("time,");
                s.append(text::joined(&names, ",").as_str());
                s.append(",energy_wh\n");
                assert(s@ =~= csv_header());
            },
            OutputFormat::Prometheus => {
                let (names, helps) = (names(), helps());
                let prefix = self.prefix.as_str();
                let ghost f = |i: int|
                    declaration(prefix@, channel_names()[i], channel_helps()[i]);
                let mut i: usize = 0;
                while i < 4
                    invariant
                        i <= 4,
                        names@.len() == 4,
                        helps@.len() == 4,
                        forall|k: int| 0 <= k < 4 ==> (#[trigger] names@[k])@ == channel_names()[k],
                        forall|k: int| 0 <= k < 4 ==> (#[trigger] helps@[k])@ == channel_helps()[k],
                        f == (|i: int|
                            declaration(prefix@, channel_names()[i], channel_helps()[i])),
                        s@ == first(f, i as nat),
                    decreases 4 - i,
                {
                    append_declaration(s, prefix, names[i], helps[i]);
                    i = i + 1;
                }
                proof {
                    lemma_first(f);
                }
                append_declaration(
                    s,
                    prefix,
                    "energy_wh",
                    "Energy accumulated this session in watt-hours",
                );
            },
            _ => {
                assert(s@ =~= Seq::<char>::empty());
            },
        }
    }
}

/// What `f` says of the first `n` channels.
spec fn first(f: spec_fn(int) -> Seq<char>, n: nat) -> Seq<char>
    decreases n,
{
    if n == 0 {
        Seq::empty()
    } else {
        first(f, (n - 1) as nat) + f(n - 1)
    }
}

proof fn lemma_first(f: spec_fn(int) -> Seq<char>)
    ensures
        first(f, 4) == each(f),
{
    reveal_with_fuel(first, 5);
    assert(first(f, 4) =~= each(f));
}

/// Everything that is printed for `ms`: the header once, before the first, and
/// then each of them in turn.
pub open spec fn transcript(format: OutputFormat, prefix: Seq<char>, ms: Seq<Rendered>) -> Seq<
    char,
>
    decreases ms.len(),
{
    if ms.len() == 0 {
        Seq::empty()
    } else if ms.len() == 1 {
        header(format, prefix) + body(format, prefix, ms[0])
    } else {
        transcript(format, prefix, ms.drop_last()) + body(format, prefix, ms.last())
    }
}

/// A printer that has printed `ms` and prints one more measurement has printed
/// the transcript of them all: the header is never repeated.
pub proof fn header_comes_once(
    format: OutputFormat,
    prefix: Seq<char>,
    ms: Seq<Rendered>,
    next: Rendered,
    printed: Seq<char>,
)
    requires
        printed == (if ms.len() > 0 {
            Seq::empty()
        } else {
            header(format, prefix)
        }) + body(format, prefix, next),
    ensures
        transcript(format, prefix, ms.push(next)) == transcript(format, prefix, ms) + printed,
{
    let all = ms.push(next);
    assert(all.drop_last() =~= ms);
    assert(transcript(format, prefix, all) =~= transcript(format, prefix, ms) + printed);
}

/// The quantities that a measurement carries.
#[derive(Clone, Copy, Debug, PartialEq, Eq, Structural)]
pub enum Quantity {
    Voltage,
    Ampere,
    Wattage,
}

impl Quantity {
    pub open spec fn of(self, m: Measurement) -> u64 {
        match self {
            Quantity::Voltage => m.voltage,
            Quantity::Ampere => m.ampere,
            Quantity::Wattage => m.wattage,
        }
    }
}

/// The sum of a quantity over all samples.
pub open spec fn total(h: Seq<Sample>, q: Quantity) -> nat
    decreases h.len(),
{
    if h.len() == 0 {
        0
    } else {
        total(h.drop_last(), q) + q.of(h.last().measurement) as nat
    }
}

/// The least value of a quantity over all samples.
pub open spec fn least(h: Seq<Sample>, q: Quantity) -> u64
    decreases h.len(),
{
    if h.len() == 0 {
        0
    } else {
        let v = q.of(h.last().measurement);
        if h.len() == 1 || v < least(h.drop_last(), q) {
            v
        } else {
            least(h.drop_last(), q)
        }
    }
}

/// The greatest value of a quantity over all samples.
pub open spec fn greatest(h: Seq<Sample>, q: Quantity) -> u64
    decreases h.len(),
{
    if h.len() == 0 {
        0
    } else {
        let v = q.of(h.last().measurement);
        if h.len() == 1 || v > greatest(h.drop_last(), q) {
            v
        } else {
            greatest(h.drop_last(), q)
        }
    }
}

/// The energy of a run, in 2^-24 W times nanoseconds: each measurement's power
/// over the time since the one before it. The first contributes nothing.
pub open spec fn energy(h: Seq<Sample>) -> nat
    decreases h.len(),
{
    if h.len() < 2 {
        0
    } else {
        let (last, before) = (h.last(), h[h.len() - 2]);
        energy(h.drop_last()) + (last.measurement.wattage * (last.at - before.at)) as nat
    }
}

/// Whether the samples are such as a run takes: each within range, none before
/// the one that came earlier.
pub open spec fn is_run(h: Seq<Sample>) -> bool {
    &&& forall|i: int| 0 <= i < h.len() ==> (#[trigger] h[i]).measurement.in_range()
    &&& forall|i: int, j: int| 0 <= i <= j < h.len() ==> (#[trigger] h[i]).at <= (#[trigger] h[j]).at
}

/// Running min/max/sum of one quantity.
#[derive(Clone, Copy, Debug, PartialEq, Eq, Structural)]
pub struct Channel {
    pub min: u64,
    pub max: u64,
    pub sum: u128,
}

impl Channel {
    /// Whether the channel is that of `q` over the samples `h`.
    pub open spec fn covers(self, h: Seq<Sample>, q: Quantity) -> bool {
        &&& self.min == least(h, q)
        &&& self.max == greatest(h, q)
        &&& self.sum == total(h, q)
    }

    /// Take in one more value.
    pub fn record(&mut self, value: u64, first: bool)
        requires
            old(self).sum + value <= u128::MAX,
        ensures
            final(self).min == (if first || value < old(self).min {
                value
            } else {
                old(self).min
            }),
            final(self).max == (if first || value > old(self).max {
                value
            } else {
                old(self).max
            }),
            final(self).sum == old(self).sum + value,
    {
        if first || value < self.min {
            self.min = value;
        }
        if first || value > self.max {
            self.max = value;
        }
        self.sum = self.sum + value as u128;
    }
}

/// Running statistics over a stream of measurements. Energy is integrated over
/// the actual time between samples, so the first sample contributes nothing and
/// reconnect gaps are accounted for at their real length.
pub struct Stats {
    count: u64,
    voltage: Channel,
    ampere: Channel,
    wattage: Channel,
    last_sample: Option<u64>,
    energy: u128,
    history: Ghost<Seq<Sample>>,
}

impl View for Stats {
    type V = Seq<Sample>;

    /// The samples that were taken in.
    closed spec fn view(&self) -> Seq<Sample> {
        self.history@
    }
}

proof fn lemma_shorter_run(h: Seq<Sample>)
    requires
        is_run(h),
        h.len() > 0,
    ensures
        is_run(h.drop_last()),
{
    let t = h.drop_last();
    assert forall|i: int| 0 <= i < t.len() implies (#[trigger] t[i]).measurement.in_range() by {
        assert(h[i].measurement.in_range());
    }
    assert forall|i: int, j: int| 0 <= i <= j < t.len() implies (#[trigger] t[i]).at <= (
    #[trigger] t[j]).at by {
        assert(h[i].at <= h[j].at);
    }
}

proof fn lemma_total_bound(h: Seq<Sample>, q: Quantity)
    requires
        is_run(h),
    ensures
        total(h, q) <= h.len() * CHANNEL_LIMIT,
    decreases h.len(),
{
    if h.len() > 0 {
        let t = h.drop_last();
        lemma_shorter_run(h);
        lemma_total_bound(t, q);
        assert(h[h.len() - 1].measurement.in_range());
    }
}

proof fn lemma_energy_bound(h: Seq<Sample>)
    requires
        is_run(h),
        h.len() > 0,
    ensures
        energy(h) <= CHANNEL_LIMIT * (h.last().at - h[0].at),
    decreases h.len(),
{
    if h.len() > 1 {
        let t = h.drop_last();
        lemma_shorter_run(h);
        lemma_energy_bound(t);
        let (w, l) = (h[h.len() - 1].measurement.wattage as int, CHANNEL_LIMIT as int);
        assert(h[h.len() - 1].measurement.in_range());
        assert(h[h.len() - 2].at <= h[h.len() - 1].at);
        let (d, e) = (h.last().at - h[h.len() - 2].at, h[h.len() - 2].at - h[0].at);
        assert(w * d <= l * d) by (nonlinear_arith)
            requires
                0 <= w <= l,
                0 <= d,
        ;
        assert(l * d + l * e == l * (d + e)) by (nonlinear_arith);
    } else {
        assert(CHANNEL_LIMIT * 0 == 0);
    }
}

impl Stats {
    pub closed spec fn wf(self) -> bool {
        let h = self.history@;
        &&& is_run(h)
        &&& self.count == h.len()
        &&& self.voltage.covers(h, Quantity::Voltage)
        &&& self.ampere.covers(h, Quantity::Ampere)
        &&& self.wattage.covers(h, Quantity::Wattage)
        &&& self.energy == energy(h)
        &&& self.last_sample == (if h.len() == 0 {
            None
        } else {
            Some(h.last().at)
        })
    }

    pub fn new() -> (s: Stats)
        ensures
            s.wf(),
            s@ == Seq::<Sample>::empty(),
    {
        let none = Channel { min: 0, max: 0, sum: 0 };
        Stats {
            count: 0,
            voltage: none,
            ampere: none,
            wattage: none,
            last_sample: None,
            energy: 0,
            history: Ghost(Seq::empty()),
        }
    }

    /// Fold a measurement that arrived at `now`, in nanoseconds of a monotonic
    /// clock, into the running statistics and return the session energy so far.
    pub fn record(&mut self, m: &Measurement, now: u64) -> (e: u128)
        requires
            old(self).wf(),
            old(self)@.len() < u64::MAX,
            m.in_range(),
            old(self)@.len() > 0 ==> old(self)@.last().at <= now,
        ensures
            final(self).wf(),
            final(self)@ == old(self)@.push(Sample { measurement: *m, at: now }),
            e == energy(final(self)@),
    {
        let ghost h = self.history@;
        let ghost next = h.push(Sample { measurement: *m, at: now });
        proof {
            assert(next.drop_last() =~= h);
            assert forall|i: int| 0 <= i < next.len() implies (
            #[trigger] next[i]).measurement.in_range() by {
                if i < h.len() {
                    assert(h[i].measurement.in_range());
                }
            }
            assert forall|i: int, j: int| 0 <= i <= j < next.len() implies (#[trigger] next[i]).at
                <= (#[trigger] next[j]).at by {
                if j < h.len() {
                    assert(h[i].at <= h[j].at);
                } else if i < h.len() {
                    assert(h[i].at <= h[h.len() - 1].at);
                }
            }
            lemma_total_bound(next, Quantity::Voltage);
            lemma_total_bound(next, Quantity::Ampere);
            lemma_total_bound(next, Quantity::Wattage);
            assert(next.len() * CHANNEL_LIMIT <= 0xffff_ffff_ffff_ffff * CHANNEL_LIMIT)
                by (nonlinear_arith)
                requires
                    next.len() <= 0xffff_ffff_ffff_ffff,
            ;
            lemma_energy_bound(next);
            let (d, l) = (now - next[0].at, CHANNEL_LIMIT as int);
            assert(l * d <= l * 0xffff_ffff_ffff_ffff) by (nonlinear_arith)
                requires
                    d <= 0xffff_ffff_ffff_ffff,
                    0 <= l,
            ;
        }
        if let Some(last) = self.last_sample {
            let (w, d): (u128, u128) = (m.wattage as u128, (now - last) as u128);
            assert(0 <= w * d <= 0x1_0000_0000_0000 * 0xffff_ffff_ffff_ffff) by (nonlinear_arith)
                requires
                    0 <= w <= 0x1_0000_0000_0000,
                    0 <= d <= 0xffff_ffff_ffff_ffff,
            ;
            self.energy = self.energy + w * d;
        }
        self.last_sample = Some(now);
        let first = self.count == 0;
        self.count = self.count + 1;
        self.voltage.record(m.voltage, first);
        self.ampere.record(m.ampere, first);
        self.wattage.record(m.wattage, first);
        self.history = Ghost(next);
        self.energy
    }

    /// How many measurements were taken in.
    pub fn count(&self) -> (n: u64)
        requires
            self.wf(),
        ensures
            n == self@.len(),
    {
        self.count
    }

    /// The session energy so far, in 2^-24 W times nanoseconds.
    pub fn energy(&self) -> (e: u128)
        requires
            self.wf(),
        ensures
            e == energy(self@),
    {
        self.energy
    }

    /// The least and greatest value and the sum of a quantity.
    pub fn channel(&self, q: Quantity) -> (c: Channel)
        requires
            self.wf(),
        ensures
            c.covers(self@, q),
    {
        match q {
            Quantity::Voltage => self.voltage,
            Quantity::Ampere => self.ampere,
            Quantity::Wattage => self.wattage,
        }
    }
}

/// The first sample contributes no energy.
pub proof fn first_sample_contributes_nothing(s: Sample)
    ensures
        energy(seq![s]) == 0,
{
}

/// Energy accumulates: a run that goes on never loses any, and the next sample
/// adds its power over the whole time since the last, however long that was.
pub proof fn energy_accumulates(h: Seq<Sample>, next: Sample)
    requires
        is_run(h.push(next)),
        h.len() > 0,
    ensures
        energy(h.push(next)) == energy(h) + next.measurement.wattage * (next.at - h.last().at),
        energy(h.push(next)) >= energy(h),
{
    let all = h.push(next);
    assert(all.drop_last() =~= h);
    assert(all[h.len() - 1].at <= all[h.len() as int].at);
    let (w, d) = (next.measurement.wattage as int, next.at - h.last().at);
    assert(w * d >= 0) by (nonlinear_arith)
        requires
            w >= 0,
            d >= 0,
    ;
}

/// Every value lies between the least and the greatest, so the mean does too.
pub proof fn values_lie_between(h: Seq<Sample>, q: Quantity, i: int)
    requires
        0 <= i < h.len(),
    ensures
        least(h, q) <= q.of(h[i].measurement) <= greatest(h, q),
        least(h, q) * h.len() <= total(h, q) <= greatest(h, q) * h.len(),
    decreases h.len(),
{
    let t = h.drop_last();
    let n = h.len() as int;
    if h.len() > 1 {
        values_lie_between(
            t,
            q,
            if i < n - 1 {
                i
            } else {
                0
            },
        );
        assert(i < n - 1 ==> t[i] == h[i]);
        let (a, b) = (least(t, q) as int, least(h, q) as int);
        let (c, d) = (greatest(t, q) as int, greatest(h, q) as int);
        assert(b * n <= a * (n - 1) + b) by (nonlinear_arith)
            requires
                b <= a,
                n >= 1,
        ;
        assert(c * (n - 1) + d <= d * n) by (nonlinear_arith)
            requires
                c <= d,
                n >= 1,
        ;
    } else {
        assert(t =~= Seq::empty());
        assert(total(t, q) == 0);
        assert(h[i] == h.last());
    }
}

/// One line of the summary as it is printed: the channel's least, greatest and
/// mean value to three decimal places.
#[derive(Debug)]
pub struct ChannelText {
    pub min: String,
    pub max: String,
    pub avg: String,
}

/// The numbers of a summary as they are printed, to three decimal places.
#[derive(Debug)]
pub struct SummaryText {
    pub voltage: ChannelText,
    pub ampere: ChannelText,
    pub wattage: ChannelText,
    pub power_factor: ChannelText,
    /// The energy of the run, in watt-hours.
    pub energy: String,
}

pub open spec fn summary_line(name: Seq<char>, c: ChannelText) -> Seq<char> {
    name + ": min="@ + c.min@ + "  max="@ + c.max@ + "  avg="@ + c.avg@ + "\n"@
}

/// What is printed at the end of a run of `count` measurements.
pub open spec fn summary(count: nat, t: SummaryText) -> Seq<char> {
    "--- summary ("@ + text::decimal(count) + "-sample run) ---\n"@ + summary_line(
        "voltage"@,
        t.voltage,
    ) + summary_line("ampere"@, t.ampere) + summary_line("wattage"@, t.wattage) + summary_line(
        "power_factor"@,
        t.power_factor,
    ) + "energy: "@ + t.energy@ + " Wh\n"@
}

fn append_summary_line(s: &mut String, name: &str, c: &ChannelText)
    ensures
        final(s)@ == old(s)@ + summary_line(name@, *c),
{
    let ghost before = s@;
    s.append(name);
    s.append(": min=");
    s.append(c.min.as_str());
    s.append("  max=");
    s.append(c.max.as_str());
    s.append("  avg=");
    s.append(c.avg.as_str());
    s.append("\n");
    assert(s@ =~= before + summary_line(name@, *c));
}

impl Stats {
    /// Min/max/avg per channel and total energy, to be written to stderr; there
    /// is nothing to say of a run that took no measurement.
    pub fn print_summary(&self, t: &SummaryText) -> (r: Option<String>)
        requires
            self.wf(),
        ensures
            r is Some <==> self@.len() > 0,
            r matches Some(s) ==> s@ == summary(self@.len(), *t),
    {
        if self.count == 0 {
            return None;
        }
        let mut s = "--- summary (".to_owned();
        s.append(text::decimal_string(self.count).as_str());
        s.append("-sample run) ---\n");
        append_summary_line(&mut s, "voltage", &t.voltage);
        append_summary_line(&mut s, "ampere", &t.ampere);
        append_summary_line(&mut s, "wattage", &t.wattage);
        append_summary_line(&mut s, "power_factor", &t.power_factor);
        s.append("energy: ");
        s.append(t.energy.as_str());
        s.append(" Wh\n");
        Some(s)
    }
}

/// Renders a stream of measurements until it has rendered enough of them.
pub struct StreamRenderer {
    printer: Printer,
    stats: Stats,
    limit: Option<u64>,
    log_level: LogLevel,
}

impl StreamRenderer {
    pub closed spec fn wf(self) -> bool {
        self.stats.wf()
    }

    pub closed spec fn printer(self) -> Printer {
        self.printer
    }

    /// The samples that were taken in.
    pub closed spec fn samples(self) -> Seq<Sample> {
        self.stats@
    }

    pub closed spec fn limit(self) -> Option<u64> {
        self.limit
    }

    pub closed spec fn log_level(self) -> LogLevel {
        self.log_level
    }

    pub fn new(format: OutputFormat, prefix: &str, limit: Option<u64>, log_level: LogLevel) -> (r:
        StreamRenderer)
        ensures
            r.wf(),
            r.samples() == Seq::<Sample>::empty(),
            r.printer().format() == format,
            r.printer().prefix() == prefix@,
            !r.printer().started(),
            r.limit() == limit,
            r.log_level() == log_level,
    {
        StreamRenderer {
            printer: Printer::new(format, prefix),
            stats: Stats::new(),
            limit,
            log_level,
        }
    }

    /// Take in a measurement that arrived at `now`, and return the session
    /// energy so far.
    pub fn sample(&mut self, m: &Measurement, now: u64) -> (e: u128)
        requires
            old(self).wf(),
            old(self).samples().len() < u64::MAX,
            m.in_range(),
            old(self).samples().len() > 0 ==> old(self).samples().last().at <= now,
        ensures
            final(self).wf(),
            final(self).samples() == old(self).samples().push(Sample { measurement: *m, at: now }),
            e == energy(final(self).samples()),
            final(self).printer() == old(self).printer(),
            final(self).limit() == old(self).limit(),
            final(self).log_level() == old(self).log_level(),
    {
        self.stats.record(m, now)
    }

    /// Render the measurement that was taken in.
    pub fn record(&mut self, m: &Rendered) -> (s: String)
        requires
            old(self).wf(),
            m.wf(),
        ensures
            final(self).wf(),
            final(self).samples() == old(self).samples(),
            final(self).limit() == old(self).limit(),
            final(self).log_level() == old(self).log_level(),
            final(self).printer().format() == old(self).printer().format(),
            final(self).printer().prefix() == old(self).printer().prefix(),
            final(self).printer().started(),
            s@ == (if old(self).printer().started() {
                Seq::empty()
            } else {
                header(old(self).printer().format(), old(self).printer().prefix())
            }) + body(old(self).printer().format(), old(self).printer().prefix(), *m),
            s@ == shown(
                old(self).printer().format(),
                old(self).printer().prefix(),
                old(self).printer().started(),
                *m,
            ),
    {
        self.printer.print(m)
    }

    /// Whether as many measurements were taken in as were asked for.
    pub fn finished(&self) -> (b: bool)
        requires
            self.wf(),
        ensures
            b == (self.limit() matches Some(n) && self.samples().len() >= n),
            b == enough(self.limit(), self.samples().len()),
    {
        match self.limit {
            Some(n) => self.stats.count() >= n,
            None => false,
        }
    }

    /// The statistics of the run.
    pub fn stats(&self) -> (s: &Stats)
        requires
            self.wf(),
        ensures
            s.wf(),
            s@ == self.samples(),
    {
        &self.stats
    }

    /// What is printed to stderr at the end of the run: a summary, unless
    /// messages are suppressed or nothing was measured.
    pub fn summary(&self, t: &SummaryText) -> (r: Option<String>)
        requires
            self.wf(),
        ensures
            r is Some <==> self.log_level() == LogLevel::Info && self.samples().len() > 0,
            r matches Some(s) ==> s@ == summary(self.samples().len(), *t),
    {
        if self.log_level != LogLevel::Info {
            return None;
        }
        self.stats.print_summary(t)
    }
}

/// A gauge and its declaration, without a time: a scraper stamps what it reads.
pub open spec fn scraped(prefix: Seq<char>, m: Rendered, i: int) -> Seq<char> {
    declaration(prefix, channel_names()[i], channel_helps()[i]) + prefix + "_"@ + channel_names()[i]
        + " "@ + m.values()[i] + "\n"@
}

/// A bare gauge.
pub open spec fn bare_gauge(prefix: Seq<char>, name: Seq<char>, value: Seq<char>) -> Seq<char> {
    "# TYPE "@ + prefix + "_"@ + name + " gauge\n"@ + prefix + "_"@ + name + " "@ + value + "\n"@
}

/// What a scrape reads: the channels while the reading is fresh, the time of
/// the last sample where there is one, and whether the device is up.
pub open spec fn exposition(prefix: Seq<char>, m: Option<Rendered>, fresh: bool) -> Seq<char> {
    (if fresh && m is Some {
        each(|i: int| scraped(prefix, m->0, i))
    } else {
        Seq::empty()
    }) + (if m is Some {
        bare_gauge(prefix, "last_sample_timestamp_seconds"@, text::integer(m->0.epoch as int))
    } else {
        Seq::empty()
    }) + bare_gauge(
        prefix,
        "up"@,
        if fresh {
            "1"@
        } else {
            "0"@
        },
    )
}

fn append_bare_gauge(s: &mut String, prefix: &str, name: &str, value: &str)
    ensures
        final(s)@ == old(s)@ + bare_gauge(prefix@, name@, value@),
{
    let ghost before = s@;
    s.append("# TYPE ");
    s.append(prefix);
    s.append("_");
    s.append(name);
    s.append(" gauge\n");
    s.append(prefix);
    s.append("_");
    s.append(name);
    s.append(" ");
    s.append(value);
    s.append("\n");
    assert(s@ =~= before + bare_gauge(prefix@, name@, value@));
}

/// Render what a scrape reads. The channel gauges are left out rather than
/// repeated once the reading is too old: a gauge that keeps returning the last
/// value it saw makes a dead link look like a steady load. Session energy is
/// not exposed: it is accumulated per run by the streaming client.
pub fn metrics_exposition(prefix: &str, m: Option<&Rendered>, fresh: bool) -> (s: String)
    ensures
        s@ == exposition(
            prefix@,
            match m {
                Some(m) => Some(*m),
                None => None,
            },
            fresh,
        ),
{
    let mut s = String::new();
    if let Some(m) = m {
        if fresh {
            let (names, helps) = (names(), helps());
            let ghost f = |i: int| scraped(prefix@, *m, i);
            let mut i: usize = 0;
            while i < 4
                invariant
                    i <= 4,
                    names@.len() == 4,
                    helps@.len() == 4,
                    forall|k: int| 0 <= k < 4 ==> (#[trigger] names@[k])@ == channel_names()[k],
                    forall|k: int| 0 <= k < 4 ==> (#[trigger] helps@[k])@ == channel_helps()[k],
                    f == (|i: int| scraped(prefix@, *m, i)),
                    s@ == first(f, i as nat),
                decreases 4 - i,
            {
                let ghost before = s@;
                append_declaration(&mut s, prefix, names[i], helps[i]);
                s.append(prefix);
                s.append("_");
                s.append(names[i]);
                s.append(" ");
                s.append(m.value(i));
                s.append("\n");
                proof {
                    assert(s@ =~= before + f(i as int));
                }
                i = i + 1;
            }
            proof {
                lemma_first(f);
            }
        }
        append_bare_gauge(
            &mut s,
            prefix,
            "last_sample_timestamp_seconds",
            text::integer_string(m.epoch).as_str(),
        );
    }
    append_bare_gauge(
        &mut s,
        prefix,
        "up",
        if fresh {
            "1"
        } else {
            "0"
        },
    );
    proof {
        let shown = match m {
            Some(m) => Some(*m),
            None => None,
        };
        assert(s@ =~= exposition(prefix@, shown, fresh));
    }
    s
}

/// A reading that is no longer fresh is reported as down, with no channel, and
/// whatever its values were makes no difference.
pub proof fn stale_reading_shows_no_channel(prefix: Seq<char>, a: Rendered, b: Rendered)
    requires
        a.epoch == b.epoch,
    ensures
        exposition(prefix, Some(a), false) == exposition(prefix, Some(b), false),
        exposition(prefix, None, false) == bare_gauge(prefix, "up"@, "0"@),
{
    assert(exposition(prefix, None, false) =~= bare_gauge(prefix, "up"@, "0"@));
}

impl Rendered {
    /// Whether the numbers are made of what is printed in ASCII, without a comma.
    pub open spec fn printed(self) -> bool {
        &&& text::printed(self.voltage@)
        &&& text::printed(self.ampere@)
        &&& text::printed(self.wattage@)
        &&& text::printed(self.power_factor@)
        &&& text::printed(self.power_factor_rounded@)
        &&& text::printed(self.energy@)
        &&& text::printed(self.energy_rounded@)
    }
}

proof fn lemma_names_are_printed()
    ensures
        text::printed("time"@),
        text::printed("voltage"@),
        text::printed("ampere"@),
        text::printed("wattage"@),
        text::printed("power_factor"@),
        text::printed("energy_wh"@),
{
    reveal_strlit("time");
    reveal_strlit("voltage");
    reveal_strlit("ampere");
    reveal_strlit("wattage");
    reveal_strlit("power_factor");
    reveal_strlit("energy_wh");
}

/// A line of CSV holds, between its commas, under each name of the header the
/// number of that name: the time, the four channels, and the energy.
#[verifier::rlimit(40)]
pub proof fn csv_columns_stand_under_their_names(m: Rendered)
    requires
        m.printed(),
    ensures
        csv_header().last() == '\n',
        csv_row(m).last() == '\n',
        text::split(csv_header().drop_last(), ',') == seq![
            "time"@,
            "voltage"@,
            "ampere"@,
            "wattage"@,
            "power_factor"@,
            "energy_wh"@,
        ],
        text::split(csv_row(m).drop_last(), ',') == seq![
            text::integer(m.epoch as int),
            m.voltage@,
            m.ampere@,
            m.wattage@,
            m.power_factor@,
            m.energy@,
        ],
{
    let names = seq!["time"@, "voltage"@, "ampere"@, "wattage"@, "power_factor"@, "energy_wh"@];
    let values = seq![
        text::integer(m.epoch as int),
        m.voltage@,
        m.ampere@,
        m.wattage@,
        m.power_factor@,
        m.energy@,
    ];
    lemma_names_are_printed();
    text::lemma_integer_is_printed(m.epoch as int);
    assert forall|i: int| 0 <= i < 6 implies text::lacks(#[trigger] names[i], ',') by {
        text::lemma_printed_lacks(names[i]);
    }
    assert forall|i: int| 0 <= i < 6 implies text::lacks(#[trigger] values[i], ',') by {
        text::lemma_printed_lacks(values[i]);
    }
    text::what_is_joined_comes_apart(names, ',');
    text::what_is_joined_comes_apart(values, ',');
    lemma_join_six(names, seq![',']);
    lemma_join_six(values, seq![',']);
    lemma_join_four(channel_names(), seq![',']);
    lemma_join_four(m.values(), seq![',']);
    reveal_strlit("time,");
    reveal_strlit("time");
    reveal_strlit(",");
    reveal_strlit("energy_wh");
    reveal_strlit(",energy_wh\n");
    reveal_strlit("\n");
    assert(","@ =~= seq![',']);
    assert("time,"@ =~= "time"@ + seq![',']);
    assert(",energy_wh\n"@ =~= seq![','] + "energy_wh"@ + seq!['\n']);
    assert(csv_header().drop_last() =~= text::join(names, seq![',']));
    assert(csv_row(m).drop_last() =~= text::join(values, seq![',']));
}

proof fn lemma_join_six(l: Seq<Seq<char>>, sep: Seq<char>)
    requires
        l.len() == 6,
    ensures
        text::join(l, sep) == l[0] + sep + l[1] + sep + l[2] + sep + l[3] + sep + l[4] + sep + l[5],
{
    let l5 = l.drop_last();
    let l4 = l5.drop_last();
    lemma_join_four(l4, sep);
    assert(text::join(l5, sep) == text::join(l4, sep) + sep + l[4]);
    assert(text::join(l, sep) == text::join(l5, sep) + sep + l[5]);
}

proof fn lemma_join_four(l: Seq<Seq<char>>, sep: Seq<char>)
    requires
        l.len() == 4,
    ensures
        text::join(l, sep) == l[0] + sep + l[1] + sep + l[2] + sep + l[3],
{
    let l3 = l.drop_last();
    let l2 = l3.drop_last();
    let l1 = l2.drop_last();
    assert(text::join(l1, sep) == l[0]);
    assert(text::join(l2, sep) == text::join(l1, sep) + sep + l[1]);
    assert(text::join(l3, sep) == text::join(l2, sep) + sep + l[2]);
    assert(text::join(l, sep) == text::join(l3, sep) + sep + l[3]);
}

/// A line of LTSV holds, between its tabs, each name with its number behind a
/// colon.
#[verifier::rlimit(40)]
pub proof fn ltsv_fields_name_their_numbers(m: Rendered)
    requires
        m.printed(),
    ensures
        ltsv(m).last() == '\n',
        text::split(ltsv(m).drop_last(), '\t') == seq![
            "time"@ + seq![':'] + text::integer(m.epoch as int),
            "voltage"@ + seq![':'] + m.voltage@,
            "ampere"@ + seq![':'] + m.ampere@,
            "wattage"@ + seq![':'] + m.wattage@,
            "power_factor"@ + seq![':'] + m.power_factor@,
            "energy_wh"@ + seq![':'] + m.energy@,
        ],
{
    let c = seq![':'];
    let fs = seq![
        "time"@ + c + text::integer(m.epoch as int),
        "voltage"@ + c + m.voltage@,
        "ampere"@ + c + m.ampere@,
        "wattage"@ + c + m.wattage@,
        "power_factor"@ + c + m.power_factor@,
        "energy_wh"@ + c + m.energy@,
    ];
    lemma_names_are_printed();
    text::lemma_integer_is_printed(m.epoch as int);
    lemma_labelled("time"@, text::integer(m.epoch as int));
    lemma_labelled("voltage"@, m.voltage@);
    lemma_labelled("ampere"@, m.ampere@);
    lemma_labelled("wattage"@, m.wattage@);
    lemma_labelled("power_factor"@, m.power_factor@);
    lemma_labelled("energy_wh"@, m.energy@);
    assert forall|i: int| 0 <= i < 6 implies text::lacks(#[trigger] fs[i], '\t') by {}
    text::what_is_joined_comes_apart(fs, '\t');
    lemma_join_six(fs, seq!['\t']);
    let inner = fields(m, Seq::empty(), ":"@);
    lemma_join_four(inner, seq!['\t']);
    reveal_strlit("time:");
    reveal_strlit("time");
    reveal_strlit(":");
    reveal_strlit("\t");
    reveal_strlit("energy_wh");
    reveal_strlit("\tenergy_wh:");
    reveal_strlit("\n");
    assert("\t"@ =~= seq!['\t']);
    assert(":"@ =~= c);
    assert("time:"@ =~= "time"@ + c);
    assert("\tenergy_wh:"@ =~= seq!['\t'] + "energy_wh"@ + c);
    assert(inner[0] =~= fs[1] && inner[1] =~= fs[2] && inner[2] =~= fs[3] && inner[3] =~= fs[4]);
    assert(ltsv(m).drop_last() =~= text::join(fs, seq!['\t']));
}

proof fn lemma_labelled(label: Seq<char>, value: Seq<char>)
    requires
        text::printed(label),
        text::printed(value),
    ensures
        text::lacks(label + seq![':'] + value, '\t'),
        text::lacks(seq!['"'] + label + seq!['"', ':'] + value, ','),
{
    let s = label + seq![':'] + value;
    assert forall|i: int| 0 <= i < s.len() implies #[trigger] s[i] != '\t' by {
        if i < label.len() {
            assert(s[i] == label[i]);
        } else if i > label.len() {
            assert(s[i] == value[i - label.len() - 1]);
        }
    }
    let t = seq!['"'] + label + seq!['"', ':'] + value;
    assert forall|i: int| 0 <= i < t.len() implies #[trigger] t[i] != ',' by {
        if 0 < i <= label.len() {
            assert(t[i] == label[i - 1]);
        } else if i >= label.len() + 3 {
            assert(t[i] == value[i - label.len() - 3]);
        }
    }
}

/// A line of JSON is one object, which holds, between its commas, each name in
/// quotes with its number behind a colon.
#[verifier::rlimit(40)]
pub proof fn json_members_name_their_numbers(m: Rendered)
    requires
        m.printed(),
    ensures
        json(m).len() >= 3,
        json(m)[0] == '{',
        json(m)[json(m).len() - 2] == '}',
        json(m).last() == '\n',
        text::split(json(m).subrange(1, json(m).len() - 2), ',') == seq![
            seq!['"'] + "time"@ + seq!['"', ':'] + text::integer(m.epoch as int),
            seq!['"'] + "voltage"@ + seq!['"', ':'] + m.voltage@,
            seq!['"'] + "ampere"@ + seq!['"', ':'] + m.ampere@,
            seq!['"'] + "wattage"@ + seq!['"', ':'] + m.wattage@,
            seq!['"'] + "power_factor"@ + seq!['"', ':'] + m.power_factor@,
            seq!['"'] + "energy_wh"@ + seq!['"', ':'] + m.energy@,
        ],
{
    let (a, b) = (seq!['"'], seq!['"', ':']);
    let fs = json_fields(m);
    let sep = seq![','];
    let all = text::join(fs, sep);
    assert(text::split(all, ',') == fs) by {
        lemma_json_fields(m);
    }
    let inner = fields(m, "\""@, "\":"@);
    let middle = text::join(inner, ","@);
    assert(all == fs[0] + sep + middle + sep + fs[5]) by {
        lemma_json_literals();
        lemma_join_four(inner, sep);
        assert(inner[0] == fs[1] && inner[1] == fs[2] && inner[2] == fs[3] && inner[3] == fs[4]);
        lemma_join_six(fs, sep);
        lemma_grouped_six(fs, sep);
    }
    let t = text::integer(m.epoch as int);
    let (open, close) = (seq!['{'], seq!['}', '\n']);
    let (x, y) = (a + "time"@ + b, a + "energy_wh"@ + b);
    lemma_json_literals();
    lemma_grouped(open, x, t, sep, middle, y, m.energy@, close);
    lemma_inside(open, all, close);
}

proof fn lemma_inside(open: Seq<char>, all: Seq<char>, close: Seq<char>)
    requires
        open.len() == 1,
        close.len() == 2,
    ensures
        ({
            let s = open + all + close;
            &&& s.len() >= 3
            &&& s[0] == open[0]
            &&& s[s.len() - 2] == close[0]
            &&& s.last() == close[1]
            &&& s.subrange(1, s.len() - 2) == all
        }),
{
    let s = open + all + close;
    assert(s.subrange(1, s.len() - 2) =~= all);
}

proof fn lemma_grouped(
    o: Seq<char>,
    x: Seq<char>,
    t: Seq<char>,
    sep: Seq<char>,
    middle: Seq<char>,
    y: Seq<char>,
    e: Seq<char>,
    c: Seq<char>,
)
    ensures
        (o + x) + t + sep + middle + (sep + y) + e + c == o + ((x + t) + sep + middle + sep + (y
            + e)) + c,
{
    assert((o + x) + t + sep + middle + (sep + y) + e + c =~= o + ((x + t) + sep + middle + sep + (y
        + e)) + c);
}

proof fn lemma_grouped_six(l: Seq<Seq<char>>, s: Seq<char>)
    requires
        l.len() == 6,
    ensures
        l[0] + s + l[1] + s + l[2] + s + l[3] + s + l[4] + s + l[5] == l[0] + s + (l[1] + s + l[2]
            + s + l[3] + s + l[4]) + s + l[5],
{
    let (a, b, c, d, e, f) = (l[0], l[1], l[2], l[3], l[4], l[5]);
    assert(a + s + b + s + c + s + d + s + e =~= a + s + (b + s + c + s + d + s + e));
}

/// The members of a line of JSON.
spec fn json_fields(m: Rendered) -> Seq<Seq<char>> {
    let (a, b) = (seq!['"'], seq!['"', ':']);
    seq![
        a + "time"@ + b + text::integer(m.epoch as int),
        a + "voltage"@ + b + m.voltage@,
        a + "ampere"@ + b + m.ampere@,
        a + "wattage"@ + b + m.wattage@,
        a + "power_factor"@ + b + m.power_factor@,
        a + "energy_wh"@ + b + m.energy@,
    ]
}

proof fn lemma_json_literals()
    ensures
        ","@ == seq![','],
        "\""@ == seq!['"'],
        "\":"@ == seq!['"', ':'],
        "{\"time\":"@ == seq!['{'] + (seq!['"'] + "time"@ + seq!['"', ':']),
        ",\"energy_wh\":"@ == seq![','] + (seq!['"'] + "energy_wh"@ + seq!['"', ':']),
        "}\n"@ == seq!['}', '\n'],
{
    reveal_strlit("{\"time\":");
    reveal_strlit("time");
    reveal_strlit("\"");
    reveal_strlit("\":");
    reveal_strlit(",");
    reveal_strlit("energy_wh");
    reveal_strlit(",\"energy_wh\":");
    reveal_strlit("}\n");
    let (a, b) = (seq!['"'], seq!['"', ':']);
    assert(","@ =~= seq![',']);
    assert("\""@ =~= a);
    assert("\":"@ =~= b);
    assert("{\"time\":"@ =~= seq!['{'] + (a + "time"@ + b));
    assert(",\"energy_wh\":"@ =~= seq![','] + (a + "energy_wh"@ + b));
    assert("}\n"@ =~= seq!['}', '\n']);
}

proof fn lemma_json_fields(m: Rendered)
    requires
        m.printed(),
    ensures
        text::split(text::join(json_fields(m), seq![',']), ',') == json_fields(m),
{
    let fs = json_fields(m);
    lemma_names_are_printed();
    text::lemma_integer_is_printed(m.epoch as int);
    lemma_labelled("time"@, text::integer(m.epoch as int));
    lemma_labelled("voltage"@, m.voltage@);
    lemma_labelled("ampere"@, m.ampere@);
    lemma_labelled("wattage"@, m.wattage@);
    lemma_labelled("power_factor"@, m.power_factor@);
    lemma_labelled("energy_wh"@, m.energy@);
    assert forall|i: int| 0 <= i < fs.len() implies text::lacks(#[trigger] fs[i], ',') by {}
    text::what_is_joined_comes_apart(fs, ',');
}

/// A line that people read holds, between its commas, each unit with its number
/// behind an equals sign.
#[verifier::rlimit(40)]
pub proof fn plain_lines_name_their_numbers(m: Rendered)
    requires
        m.printed(),
    ensures
        plain(m).last() == '\n',
        text::split(plain(m).drop_last(), ',') == seq![
            "V = "@ + m.voltage@,
            " A = "@ + m.ampere@,
            " W = "@ + m.wattage@,
            " PF = "@ + m.power_factor_rounded@,
            " Wh = "@ + m.energy_rounded@,
        ],
{
    let fs = seq![
        "V = "@ + m.voltage@,
        " A = "@ + m.ampere@,
        " W = "@ + m.wattage@,
        " PF = "@ + m.power_factor_rounded@,
        " Wh = "@ + m.energy_rounded@,
    ];
    reveal_strlit("V = ");
    reveal_strlit(" A = ");
    reveal_strlit(" W = ");
    reveal_strlit(" PF = ");
    reveal_strlit(" Wh = ");
    reveal_strlit(", A = ");
    reveal_strlit(", W = ");
    reveal_strlit(", PF = ");
    reveal_strlit(", Wh = ");
    reveal_strlit("\n");
    lemma_behind("V = "@, m.voltage@);
    lemma_behind(" A = "@, m.ampere@);
    lemma_behind(" W = "@, m.wattage@);
    lemma_behind(" PF = "@, m.power_factor_rounded@);
    lemma_behind(" Wh = "@, m.energy_rounded@);
    assert forall|i: int| 0 <= i < 5 implies text::lacks(#[trigger] fs[i], ',') by {}
    text::what_is_joined_comes_apart(fs, ',');
    let sep = seq![','];
    lemma_join_four(fs.drop_last(), sep);
    assert(text::join(fs, sep) == text::join(fs.drop_last(), sep) + sep + fs[4]);
    assert(", A = "@ =~= sep + " A = "@);
    assert(", W = "@ =~= sep + " W = "@);
    assert(", PF = "@ =~= sep + " PF = "@);
    assert(", Wh = "@ =~= sep + " Wh = "@);
    assert(plain(m).drop_last() =~= text::join(fs, sep));
}

proof fn lemma_behind(label: Seq<char>, value: Seq<char>)
    requires
        text::lacks(label, ','),
        text::printed(value),
    ensures
        text::lacks(label + value, ','),
{
    let s = label + value;
    assert forall|i: int| 0 <= i < s.len() implies #[trigger] s[i] != ',' by {
        if i < label.len() {
            assert(s[i] == label[i]);
        } else {
            assert(s[i] == value[i - label.len()]);
        }
    }
}

/// A metric with its value and its time: three fields with `sep` between them.
pub open spec fn metric_line(
    name: Seq<char>,
    value: Seq<char>,
    time: int,
    sep: char,
) -> Seq<char> {
    text::join(seq![name, value, text::integer(time)], seq![sep])
}

proof fn lemma_metric_line(name: Seq<char>, value: Seq<char>, time: int, sep: char)
    requires
        text::printed(name),
        text::printed(value),
        sep == ' ' || sep == '\t',
    ensures
        metric_line(name, value, time, sep) == name + seq![sep] + value + seq![sep] + text::integer(
            time,
        ),
        text::one_line(metric_line(name, value, time, sep)),
        text::split(metric_line(name, value, time, sep), sep) == seq![
            name,
            value,
            text::integer(time),
        ],
{
    let l = seq![name, value, text::integer(time)];
    let s = seq![sep];
    let l2 = l.drop_last();
    assert(text::join(l2.drop_last(), s) == name);
    assert(text::join(l2, s) == text::join(l2.drop_last(), s) + s + value);
    assert(text::join(l, s) == text::join(l2, s) + s + text::integer(time));
    text::lemma_integer_is_printed(time);
    text::lemma_printed_lacks(name);
    text::lemma_printed_lacks(value);
    text::lemma_printed_lacks(text::integer(time));
    assert forall|i: int| 0 <= i < 3 implies text::lacks(#[trigger] l[i], sep) by {}
    text::what_is_joined_comes_apart(l, sep);
    assert(text::one_line(s));
    text::lemma_one_line_sum(name, s);
    text::lemma_one_line_sum(name + s, value);
    text::lemma_one_line_sum(name + s + value, s);
    text::lemma_one_line_sum(name + s + value + s, text::integer(time));
}

proof fn lemma_printed_sum(a: Seq<char>, b: Seq<char>)
    requires
        text::printed(a),
        text::printed(b),
    ensures
        text::printed(a + b),
{
    let s = a + b;
    assert forall|i: int| 0 <= i < s.len() implies '!' <= #[trigger] s[i] <= '~' && s[i]
        != ',' by {
        if i < a.len() {
            assert(s[i] == a[i]);
        } else {
            assert(s[i] == b[i - a.len()]);
        }
    }
}

proof fn lemma_full_name(prefix: Seq<char>, between: Seq<char>, name: Seq<char>)
    requires
        text::printed(prefix),
        text::printed(between),
        text::printed(name),
    ensures
        text::printed(prefix + between + name),
{
    lemma_printed_sum(prefix, between);
    lemma_printed_sum(prefix + between, name);
}

/// What Mackerel is given is a line for each channel: its name below the prefix,
/// its number and the time in seconds, with tabs between them.
#[verifier::rlimit(40)]
pub proof fn mackerel_lines_name_their_numbers(name: Seq<char>, m: Rendered)
    requires
        text::printed(name),
        m.printed(),
    ensures
        text::lines(mackerel(name, m)) == seq![
            metric_line(name + "."@ + "voltage"@, m.voltage@, m.epoch as int, '\t'),
            metric_line(name + "."@ + "ampere"@, m.ampere@, m.epoch as int, '\t'),
            metric_line(name + "."@ + "wattage"@, m.wattage@, m.epoch as int, '\t'),
            metric_line(name + "."@ + "power_factor"@, m.power_factor@, m.epoch as int, '\t'),
        ],
{
    let (names, values) = (channel_names(), m.values());
    let t = m.epoch as int;
    let line = |i: int| metric_line(name + "."@ + names[i], values[i], t, '\t');
    let list = seq![line(0), line(1), line(2), line(3)];
    lemma_names_are_printed();
    reveal_strlit(".");
    reveal_strlit("\t");
    reveal_strlit("\n");
    assert("\t"@ =~= seq!['\t']);
    assert("\n"@ =~= seq!['\n']);
    assert forall|i: int| 0 <= i < 4 implies text::one_line(line(i)) && #[trigger] mackerel_line(
        name,
        m,
        i,
    ) == line(i) + seq!['\n'] by {
        lemma_full_name(name, "."@, names[i]);
        lemma_metric_line(name + "."@ + names[i], values[i], t, '\t');
        assert(mackerel_line(name, m, i) =~= line(i) + seq!['\n']);
    }
    assert(mackerel_line(name, m, 0) == line(0) + seq!['\n']);
    assert(mackerel_line(name, m, 1) == line(1) + seq!['\n']);
    assert(mackerel_line(name, m, 2) == line(2) + seq!['\n']);
    assert(mackerel_line(name, m, 3) == line(3) + seq!['\n']);
    lemma_four_lines(line);
    assert(mackerel(name, m) =~= text::ended(list, seq!['\n']));
    assert forall|i: int| 0 <= i < list.len() implies text::one_line(#[trigger] list[i]) by {
        assert(list[i] == line(i));
        assert(mackerel_line(name, m, i) == line(i) + seq!['\n']);
    }
    text::lemma_lines_of(list);
}

proof fn lemma_four_lines(line: spec_fn(int) -> Seq<char>)
    ensures
        text::ended(seq![line(0), line(1), line(2), line(3)], seq!['\n']) == (line(0) + seq!['\n'])
            + (line(1) + seq!['\n']) + (line(2) + seq!['\n']) + (line(3) + seq!['\n']),
{
    let e = seq!['\n'];
    let l = seq![line(0), line(1), line(2), line(3)];
    assert(l =~= seq![line(0)] + (seq![line(1)] + (seq![line(2)] + seq![line(3)])));
    text::lemma_ended_sum(seq![line(0)], seq![line(1)] + (seq![line(2)] + seq![line(3)]), e);
    text::lemma_ended_sum(seq![line(1)], seq![line(2)] + seq![line(3)], e);
    text::lemma_ended_sum(seq![line(2)], seq![line(3)], e);
    text::lemma_ended_one(line(0), e);
    text::lemma_ended_one(line(1), e);
    text::lemma_ended_one(line(2), e);
    text::lemma_ended_one(line(3), e);
    assert(text::ended(l, e) =~= (line(0) + e) + (line(1) + e) + (line(2) + e) + (line(3) + e));
}

/// What Prometheus is given for a measurement is a line for each gauge: its name
/// behind the prefix, its number and the time in milliseconds, with spaces between
/// them.
#[verifier::rlimit(40)]
pub proof fn prometheus_lines_name_their_numbers(prefix: Seq<char>, m: Rendered)
    requires
        text::printed(prefix),
        m.printed(),
    ensures
        text::lines(prometheus_values(prefix, m)) == seq![
            metric_line(prefix + "_"@ + "voltage"@, m.voltage@, m.epoch * 1000, ' '),
            metric_line(prefix + "_"@ + "ampere"@, m.ampere@, m.epoch * 1000, ' '),
            metric_line(prefix + "_"@ + "wattage"@, m.wattage@, m.epoch * 1000, ' '),
            metric_line(prefix + "_"@ + "power_factor"@, m.power_factor@, m.epoch * 1000, ' '),
            metric_line(prefix + "_"@ + "energy_wh"@, m.energy@, m.epoch * 1000, ' '),
        ],
{
    let (names, values) = (channel_names(), m.values());
    let t = m.epoch * 1000;
    let line = |i: int| metric_line(prefix + "_"@ + names[i], values[i], t, ' ');
    let list = seq![line(0), line(1), line(2), line(3)];
    let last = metric_line(prefix + "_"@ + "energy_wh"@, m.energy@, t, ' ');
    lemma_names_are_printed();
    reveal_strlit("_");
    reveal_strlit(" ");
    reveal_strlit("\n");
    assert(" "@ =~= seq![' ']);
    assert("\n"@ =~= seq!['\n']);
    let gauge = |i: int| gauge_at(prefix, names[i], values[i], m.epoch as int);
    assert forall|i: int| 0 <= i < 4 implies text::one_line(line(i)) && #[trigger] gauge(i) == line(
        i,
    ) + seq!['\n'] by {
        lemma_full_name(prefix, "_"@, names[i]);
        lemma_metric_line(prefix + "_"@ + names[i], values[i], t, ' ');
        assert(gauge(i) =~= line(i) + seq!['\n']);
    }
    lemma_full_name(prefix, "_"@, "energy_wh"@);
    lemma_metric_line(prefix + "_"@ + "energy_wh"@, m.energy@, t, ' ');
    assert(gauge_at(prefix, "energy_wh"@, m.energy@, m.epoch as int) =~= last + seq!['\n']);
    assert(gauge(0) == line(0) + seq!['\n']);
    assert(gauge(1) == line(1) + seq!['\n']);
    assert(gauge(2) == line(2) + seq!['\n']);
    assert(gauge(3) == line(3) + seq!['\n']);
    lemma_four_lines(line);
    text::lemma_ended_sum(list, seq![last], seq!['\n']);
    text::lemma_ended_one(last, seq!['\n']);
    let all = list + seq![last];
    assert(prometheus_values(prefix, m) =~= text::ended(all, seq!['\n']));
    assert forall|i: int| 0 <= i < all.len() implies text::one_line(#[trigger] all[i]) by {
        if i < 4 {
            assert(all[i] == line(i));
            assert(gauge(i) == line(i) + seq!['\n']);
        }
    }
    text::lemma_lines_of(all);
    assert(all =~= seq![line(0), line(1), line(2), line(3), last]);
}

/// The value of a gauge that is stamped by whoever reads it.
pub open spec fn value_line(prefix: Seq<char>, name: Seq<char>, value: Seq<char>) -> Seq<char> {
    prefix + "_"@ + name + seq![' '] + value
}

/// A line that declares a gauge.
pub open spec fn type_line(prefix: Seq<char>, name: Seq<char>) -> Seq<char> {
    "# TYPE "@ + prefix + "_"@ + name + " gauge"@
}

/// A line that explains a gauge.
pub open spec fn help_line(prefix: Seq<char>, name: Seq<char>, help: Seq<char>) -> Seq<char> {
    "# HELP "@ + prefix + "_"@ + name + seq![' '] + help
}

proof fn lemma_helps_are_one_line()
    ensures
        text::one_line("Instantaneous voltage in volts"@),
        text::one_line("Instantaneous current in amperes"@),
        text::one_line("Instantaneous power in watts"@),
        text::one_line("Power factor (wattage / (voltage * ampere))"@),
        text::one_line("Energy accumulated this session in watt-hours"@),
{
    reveal_strlit("Instantaneous voltage in volts");
    reveal_strlit("Instantaneous current in amperes");
    reveal_strlit("Instantaneous power in watts");
    reveal_strlit("Power factor (wattage / (voltage * ampere))");
    reveal_strlit("Energy accumulated this session in watt-hours");
}

proof fn lemma_gauge_lines(prefix: Seq<char>, name: Seq<char>, help: Seq<char>, value: Seq<char>)
    requires
        text::printed(prefix),
        text::printed(name),
        text::printed(value),
        text::one_line(help),
    ensures
        text::one_line(help_line(prefix, name, help)),
        text::one_line(type_line(prefix, name)),
        text::one_line(value_line(prefix, name, value)),
        declaration(prefix, name, help) == text::ended(
            seq![help_line(prefix, name, help), type_line(prefix, name)],
            seq!['\n'],
        ),
        bare_gauge(prefix, name, value) == text::ended(
            seq![type_line(prefix, name), value_line(prefix, name, value)],
            seq!['\n'],
        ),
        prefix + "_"@ + name + " "@ + value + "\n"@ == value_line(prefix, name, value)
            + seq!['\n'],
{
    reveal_strlit("# HELP ");
    reveal_strlit("_");
    reveal_strlit(" ");
    reveal_strlit("\n# TYPE ");
    reveal_strlit(" gauge\n");
    reveal_strlit("# TYPE ");
    reveal_strlit(" gauge");
    reveal_strlit("\n");
    let e = seq!['\n'];
    assert(" "@ =~= seq![' ']);
    assert("\n"@ =~= e);
    assert("\n# TYPE "@ =~= e + "# TYPE "@);
    assert(" gauge\n"@ =~= " gauge"@ + e);
    lemma_full_name(prefix, "_"@, name);
    let full = prefix + "_"@ + name;
    text::lemma_printed_lacks(full);
    text::lemma_printed_lacks(value);
    let (h, t, v) = (
        help_line(prefix, name, help),
        type_line(prefix, name),
        value_line(prefix, name, value),
    );
    assert(text::one_line("# HELP "@) && text::one_line("# TYPE "@) && text::one_line(" gauge"@)
        && text::one_line(seq![' ']));
    text::lemma_one_line_sum("# HELP "@, full);
    text::lemma_one_line_sum("# HELP "@ + full, seq![' ']);
    text::lemma_one_line_sum("# HELP "@ + full + seq![' '], help);
    assert(h =~= "# HELP "@ + full + seq![' '] + help);
    text::lemma_one_line_sum("# TYPE "@, full);
    text::lemma_one_line_sum("# TYPE "@ + full, " gauge"@);
    assert(t =~= "# TYPE "@ + full + " gauge"@);
    text::lemma_one_line_sum(full, seq![' ']);
    text::lemma_one_line_sum(full + seq![' '], value);
    text::lemma_ended_one(h, e);
    text::lemma_ended_one(t, e);
    text::lemma_ended_one(v, e);
    text::lemma_ended_sum(seq![h], seq![t], e);
    text::lemma_ended_sum(seq![t], seq![v], e);
    assert(seq![h] + seq![t] =~= seq![h, t]);
    assert(seq![t] + seq![v] =~= seq![t, v]);
    assert(declaration(prefix, name, help) =~= text::ended(seq![h, t], e));
    assert(bare_gauge(prefix, name, value) =~= text::ended(seq![t, v], e));
}

/// The three lines of a gauge that is scraped.
pub open spec fn scraped_lines(
    prefix: Seq<char>,
    name: Seq<char>,
    help: Seq<char>,
    value: Seq<char>,
) -> Seq<Seq<char>> {
    seq![
        help_line(prefix, name, help),
        type_line(prefix, name),
        value_line(prefix, name, value),
    ]
}

/// The two lines of a gauge that nothing explains.
pub open spec fn bare_lines(prefix: Seq<char>, name: Seq<char>, value: Seq<char>) -> Seq<
    Seq<char>,
> {
    seq![type_line(prefix, name), value_line(prefix, name, value)]
}

proof fn lemma_scraped(prefix: Seq<char>, m: Rendered, i: int)
    requires
        text::printed(prefix),
        m.printed(),
        0 <= i < 4,
    ensures
        scraped(prefix, m, i) == text::ended(
            scraped_lines(prefix, channel_names()[i], channel_helps()[i], m.values()[i]),
            seq!['\n'],
        ),
        forall|k: int|
            0 <= k < 3 ==> text::one_line(
                #[trigger] scraped_lines(
                    prefix,
                    channel_names()[i],
                    channel_helps()[i],
                    m.values()[i],
                )[k],
            ),
{
    let (n, h, v) = (channel_names()[i], channel_helps()[i], m.values()[i]);
    let e = seq!['\n'];
    lemma_names_are_printed();
    lemma_helps_are_one_line();
    lemma_gauge_lines(prefix, n, h, v);
    let head = seq![help_line(prefix, n, h), type_line(prefix, n)];
    let last = value_line(prefix, n, v);
    text::lemma_ended_sum(head, seq![last], e);
    text::lemma_ended_one(last, e);
    assert(head + seq![last] =~= scraped_lines(prefix, n, h, v));
    assert(scraped(prefix, m, i) =~= declaration(prefix, n, h) + (prefix + "_"@ + n + " "@ + v
        + "\n"@));
}

/// A scrape of a fresh reading holds a gauge for each channel with the number of
/// that channel, the time of the reading, and that the device is up; one of a
/// reading that is no longer fresh holds its time and that the device is down; and
/// one without a reading only the latter.
#[verifier::rlimit(40)]
pub proof fn a_scrape_reads_every_channel(prefix: Seq<char>, m: Rendered)
    requires
        text::printed(prefix),
        m.printed(),
    ensures
        text::lines(exposition(prefix, Some(m), true)) == scraped_lines(
            prefix,
            "voltage"@,
            "Instantaneous voltage in volts"@,
            m.voltage@,
        ) + scraped_lines(
            prefix,
            "ampere"@,
            "Instantaneous current in amperes"@,
            m.ampere@,
        ) + scraped_lines(
            prefix,
            "wattage"@,
            "Instantaneous power in watts"@,
            m.wattage@,
        ) + scraped_lines(
            prefix,
            "power_factor"@,
            "Power factor (wattage / (voltage * ampere))"@,
            m.power_factor@,
        ) + bare_lines(
            prefix,
            "last_sample_timestamp_seconds"@,
            text::integer(m.epoch as int),
        ) + bare_lines(prefix, "up"@, "1"@),
        text::lines(exposition(prefix, Some(m), false)) == bare_lines(
            prefix,
            "last_sample_timestamp_seconds"@,
            text::integer(m.epoch as int),
        ) + bare_lines(prefix, "up"@, "0"@),
        text::lines(exposition(prefix, None, false)) == bare_lines(prefix, "up"@, "0"@),
{
    let e = seq!['\n'];
    let (names, helps, values) = (channel_names(), channel_helps(), m.values());
    let f = |i: int| scraped_lines(prefix, names[i], helps[i], values[i]);
    let (a, b, c, d) = (f(0), f(1), f(2), f(3));
    let time = "last_sample_timestamp_seconds"@;
    let t = bare_lines(prefix, time, text::integer(m.epoch as int));
    let (u, z) = (bare_lines(prefix, "up"@, "1"@), bare_lines(prefix, "up"@, "0"@));
    assert(each(|i: int| scraped(prefix, m, i)) == text::ended(a + b + c + d, e) && one_lines(
        a + b + c + d,
    )) by {
        lemma_each_scraped(prefix, m);
    }
    assert(bare_gauge(prefix, time, text::integer(m.epoch as int)) == text::ended(t, e)
        && bare_gauge(prefix, "up"@, "1"@) == text::ended(u, e) && bare_gauge(prefix, "up"@, "0"@)
        == text::ended(z, e) && one_lines(t) && one_lines(u) && one_lines(z)) by {
        lemma_bare_gauges(prefix, m.epoch as int);
    }
    let g = a + b + c + d;
    let all = g + t + u;
    text::lemma_ended_sum(g, t, e);
    text::lemma_ended_sum(g + t, u, e);
    text::lemma_ended_sum(t, z, e);
    lemma_one_lines_sum(g, t);
    lemma_one_lines_sum(g + t, u);
    lemma_one_lines_sum(t, z);
    let none = Seq::<char>::empty();
    assert(none + text::ended(t, e) =~= text::ended(t, e));
    assert(none + none =~= none);
    assert(none + text::ended(z, e) =~= text::ended(z, e));
    lemma_lines_of_all(all);
    lemma_lines_of_all(t + z);
    lemma_lines_of_all(z);
}

proof fn lemma_lines_of_all(list: Seq<Seq<char>>)
    requires
        one_lines(list),
    ensures
        text::lines(text::ended(list, seq!['\n'])) == list,
{
    reveal(one_lines);
    text::lemma_lines_of(list);
}

proof fn lemma_each_scraped(prefix: Seq<char>, m: Rendered)
    requires
        text::printed(prefix),
        m.printed(),
    ensures
        ({
            let f = |i: int|
                scraped_lines(prefix, channel_names()[i], channel_helps()[i], m.values()[i]);
            &&& each(|i: int| scraped(prefix, m, i)) == text::ended(
                f(0) + f(1) + f(2) + f(3),
                seq!['\n'],
            )
            &&& one_lines(f(0) + f(1) + f(2) + f(3))
        }),
{
    let e = seq!['\n'];
    let f = |i: int| scraped_lines(prefix, channel_names()[i], channel_helps()[i], m.values()[i]);
    assert forall|i: int| 0 <= i < 4 implies #[trigger] scraped(prefix, m, i) == text::ended(
        f(i),
        e,
    ) && one_lines(f(i)) by {
        reveal(one_lines);
        lemma_scraped(prefix, m, i);
    }
    assert(scraped(prefix, m, 0) == text::ended(f(0), e));
    assert(scraped(prefix, m, 1) == text::ended(f(1), e));
    assert(scraped(prefix, m, 2) == text::ended(f(2), e));
    assert(scraped(prefix, m, 3) == text::ended(f(3), e));
    text::lemma_ended_sum(f(0), f(1), e);
    text::lemma_ended_sum(f(0) + f(1), f(2), e);
    text::lemma_ended_sum(f(0) + f(1) + f(2), f(3), e);
    lemma_one_lines_sum(f(0), f(1));
    lemma_one_lines_sum(f(0) + f(1), f(2));
    lemma_one_lines_sum(f(0) + f(1) + f(2), f(3));
}

proof fn lemma_bare_gauges(prefix: Seq<char>, epoch: int)
    requires
        text::printed(prefix),
    ensures
        ({
            let time = "last_sample_timestamp_seconds"@;
            let e = seq!['\n'];
            let t = bare_lines(prefix, time, text::integer(epoch));
            let (u, z) = (bare_lines(prefix, "up"@, "1"@), bare_lines(prefix, "up"@, "0"@));
            &&& bare_gauge(prefix, time, text::integer(epoch)) == text::ended(t, e)
            &&& bare_gauge(prefix, "up"@, "1"@) == text::ended(u, e)
            &&& bare_gauge(prefix, "up"@, "0"@) == text::ended(z, e)
            &&& one_lines(t)
            &&& one_lines(u)
            &&& one_lines(z)
        }),
{
    reveal(one_lines);
    reveal_strlit("last_sample_timestamp_seconds");
    reveal_strlit("up");
    reveal_strlit("1");
    reveal_strlit("0");
    text::lemma_integer_is_printed(epoch);
    let none = Seq::<char>::empty();
    assert(text::one_line(none));
    lemma_gauge_lines(prefix, "last_sample_timestamp_seconds"@, none, text::integer(epoch));
    lemma_gauge_lines(prefix, "up"@, none, "1"@);
    lemma_gauge_lines(prefix, "up"@, none, "0"@);
}

/// Whether each of `list` holds nothing that ends a line.
#[verifier::opaque]
spec fn one_lines(list: Seq<Seq<char>>) -> bool {
    forall|i: int| 0 <= i < list.len() ==> text::one_line(#[trigger] list[i])
}

proof fn lemma_one_lines_sum(a: Seq<Seq<char>>, b: Seq<Seq<char>>)
    requires
        one_lines(a),
        one_lines(b),
    ensures
        one_lines(a + b),
{
    reveal(one_lines);
    assert forall|i: int| 0 <= i < (a + b).len() implies text::one_line(#[trigger] (a + b)[i]) by {
        if i < a.len() {
            assert((a + b)[i] == a[i]);
        } else {
            assert((a + b)[i] == b[i - a.len()]);
        }
    }
}

/// The two lines that declare a gauge.
pub open spec fn declared_lines(prefix: Seq<char>, name: Seq<char>, help: Seq<char>) -> Seq<
    Seq<char>,
> {
    seq![help_line(prefix, name, help), type_line(prefix, name)]
}

proof fn lemma_declared_lines(prefix: Seq<char>, i: int)
    requires
        text::printed(prefix),
        0 <= i < 4,
    ensures
        declaration(prefix, channel_names()[i], channel_helps()[i]) == text::ended(
            declared_lines(prefix, channel_names()[i], channel_helps()[i]),
            seq!['\n'],
        ),
        one_lines(declared_lines(prefix, channel_names()[i], channel_helps()[i])),
{
    reveal(one_lines);
    lemma_names_are_printed();
    lemma_helps_are_one_line();
    lemma_gauge_lines(prefix, channel_names()[i], channel_helps()[i], Seq::empty());
}

proof fn lemma_declared_energy(prefix: Seq<char>)
    requires
        text::printed(prefix),
    ensures
        ({
            let l = declared_lines(
                prefix,
                "energy_wh"@,
                "Energy accumulated this session in watt-hours"@,
            );
            &&& declaration(
                prefix,
                "energy_wh"@,
                "Energy accumulated this session in watt-hours"@,
            ) == text::ended(l, seq!['\n'])
            &&& one_lines(l)
        }),
{
    reveal(one_lines);
    lemma_names_are_printed();
    lemma_helps_are_one_line();
    lemma_gauge_lines(
        prefix,
        "energy_wh"@,
        "Energy accumulated this session in watt-hours"@,
        Seq::empty(),
    );
}

/// Every gauge that is streamed to Prometheus is declared once, before the first
/// measurement, under the name that its lines have.
#[verifier::rlimit(40)]
pub proof fn every_gauge_is_declared(prefix: Seq<char>)
    requires
        text::printed(prefix),
    ensures
        text::lines(header(OutputFormat::Prometheus, prefix)) == declared_lines(
            prefix,
            "voltage"@,
            "Instantaneous voltage in volts"@,
        ) + declared_lines(
            prefix,
            "ampere"@,
            "Instantaneous current in amperes"@,
        ) + declared_lines(
            prefix,
            "wattage"@,
            "Instantaneous power in watts"@,
        ) + declared_lines(
            prefix,
            "power_factor"@,
            "Power factor (wattage / (voltage * ampere))"@,
        ) + declared_lines(
            prefix,
            "energy_wh"@,
            "Energy accumulated this session in watt-hours"@,
        ),
        header(OutputFormat::Plain, prefix).len() == 0,
        header(OutputFormat::Json, prefix).len() == 0,
        header(OutputFormat::Ltsv, prefix).len() == 0,
        header(OutputFormat::Mackerel, prefix).len() == 0,
        header(OutputFormat::Csv, prefix) == csv_header(),
{
    let e = seq!['\n'];
    let f = |i: int| declared_lines(prefix, channel_names()[i], channel_helps()[i]);
    let last = declared_lines(
        prefix,
        "energy_wh"@,
        "Energy accumulated this session in watt-hours"@,
    );
    lemma_declared_lines(prefix, 0);
    lemma_declared_lines(prefix, 1);
    lemma_declared_lines(prefix, 2);
    lemma_declared_lines(prefix, 3);
    lemma_declared_energy(prefix);
    text::lemma_ended_sum(f(0), f(1), e);
    text::lemma_ended_sum(f(0) + f(1), f(2), e);
    text::lemma_ended_sum(f(0) + f(1) + f(2), f(3), e);
    text::lemma_ended_sum(f(0) + f(1) + f(2) + f(3), last, e);
    lemma_one_lines_sum(f(0), f(1));
    lemma_one_lines_sum(f(0) + f(1), f(2));
    lemma_one_lines_sum(f(0) + f(1) + f(2), f(3));
    lemma_one_lines_sum(f(0) + f(1) + f(2) + f(3), last);
    lemma_lines_of_all(f(0) + f(1) + f(2) + f(3) + last);
}

/// The least and the greatest value are values of the run, and the sum of two runs
/// is the sum of their sums.
pub proof fn extremes_are_measured(h: Seq<Sample>, q: Quantity)
    requires
        h.len() > 0,
    ensures
        exists|i: int| 0 <= i < h.len() && least(h, q) == q.of((#[trigger] h[i]).measurement),
        exists|i: int| 0 <= i < h.len() && greatest(h, q) == q.of((#[trigger] h[i]).measurement),
    decreases h.len(),
{
    let last = h.len() - 1;
    assert(h[last] == h.last());
    if h.len() > 1 {
        let t = h.drop_last();
        extremes_are_measured(t, q);
        let i = choose|i: int|
            0 <= i < t.len() && least(t, q) == q.of((#[trigger] t[i]).measurement);
        let j = choose|j: int|
            0 <= j < t.len() && greatest(t, q) == q.of((#[trigger] t[j]).measurement);
        assert(h[i] == t[i] && h[j] == t[j]);
    }
}

/// The sum over two runs is the sum of their sums.
pub proof fn sums_add_up(a: Seq<Sample>, b: Seq<Sample>, q: Quantity)
    ensures
        total(a + b, q) == total(a, q) + total(b, q),
        b.len() == 1 ==> total(b, q) == q.of(b[0].measurement),
    decreases b.len(),
{
    if b.len() == 0 {
        assert(a + b =~= a);
    } else {
        assert((a + b).drop_last() =~= a + b.drop_last());
        sums_add_up(a, b.drop_last(), q);
        assert(b.len() == 1 ==> total(b.drop_last(), q) == 0);
    }
}

/// Each quantity is that of the measurement.
pub proof fn quantities_are_told_apart(m: Measurement)
    ensures
        Quantity::Voltage.of(m) == m.voltage,
        Quantity::Ampere.of(m) == m.ampere,
        Quantity::Wattage.of(m) == m.wattage,
{
}

/// A load that stays the same takes its power times the time from the first
/// measurement to the last, however many lie between them; and it makes no
/// difference when the run began.
pub proof fn a_steady_load_takes_power_times_time(h: Seq<Sample>, w: u64)
    requires
        is_run(h),
        h.len() > 0,
        forall|i: int| 0 <= i < h.len() ==> (#[trigger] h[i]).measurement.wattage == w,
    ensures
        energy(h) == w * (h.last().at - h[0].at),
    decreases h.len(),
{
    if h.len() > 1 {
        let t = h.drop_last();
        lemma_shorter_run(h);
        assert forall|i: int| 0 <= i < t.len() implies (#[trigger] t[i]).measurement.wattage
            == w by {
            assert(h[i].measurement.wattage == w);
        }
        a_steady_load_takes_power_times_time(t, w);
        let (a, b, c) = (h[0].at as int, t.last().at as int, h.last().at as int);
        assert(h[h.len() - 2] == t.last());
        assert(h[h.len() - 2].at <= h[h.len() - 1].at);
        assert(h[h.len() - 1].measurement.wattage == w);
        let p = w as int;
        assert(p * (b - a) + p * (c - b) == p * (c - a)) by (nonlinear_arith);
        assert(p * (c - b) >= 0) by (nonlinear_arith)
            requires
                p >= 0,
                c >= b,
        ;
    } else {
        assert(w * 0 == 0);
    }
}

/// Whether `taken` measurements are as many as were asked for.
pub open spec fn enough(limit: Option<u64>, taken: nat) -> bool {
    limit matches Some(n) && taken >= n
}

/// A run takes exactly as many measurements as were asked for: it goes on with
/// one less, and ends with the last; without a limit it never ends by itself.
pub proof fn a_run_ends_with_the_last_that_was_asked_for(n: u64, taken: nat)
    ensures
        !enough(None, taken),
        enough(Some(n), n as nat),
        n > 0 ==> !enough(Some(n), (n - 1) as nat),
        enough(Some(n), taken) ==> enough(Some(n), taken + 1),
{
}

/// Whether every number of a summary is text on a line of its own.
pub open spec fn summary_is_printed(t: SummaryText) -> bool {
    &&& channel_is_printed(t.voltage)
    &&& channel_is_printed(t.ampere)
    &&& channel_is_printed(t.wattage)
    &&& channel_is_printed(t.power_factor)
    &&& text::one_line(t.energy@)
}

pub open spec fn channel_is_printed(c: ChannelText) -> bool {
    text::one_line(c.min@) && text::one_line(c.max@) && text::one_line(c.avg@)
}

/// What is said of a channel on its line of a summary.
pub open spec fn extremes_line(name: Seq<char>, c: ChannelText) -> Seq<char> {
    name + ": min="@ + c.min@ + "  max="@ + c.max@ + "  avg="@ + c.avg@
}

/// A summary is a line that says how many measurements there were, one for each
/// channel with its least, greatest and mean value in this order, and one for the
/// energy.
#[verifier::rlimit(40)]
pub proof fn a_summary_is_a_line_for_each_channel(count: nat, t: SummaryText)
    requires
        summary_is_printed(t),
    ensures
        ({
            let l = text::lines(summary(count, t));
            &&& l.len() == 6
            &&& l[0] == "--- summary ("@ + text::decimal(count) + "-sample run) ---"@
            &&& l[1] == extremes_line("voltage"@, t.voltage)
            &&& l[2] == extremes_line("ampere"@, t.ampere)
            &&& l[3] == extremes_line("wattage"@, t.wattage)
            &&& l[4] == extremes_line("power_factor"@, t.power_factor)
            &&& l[5] == "energy: "@ + t.energy@ + " Wh"@
        }),
{
    let end = seq!['\n'];
    let first = "--- summary ("@ + text::decimal(count) + "-sample run) ---"@;
    let last = "energy: "@ + t.energy@ + " Wh"@;
    let list = seq![
        first,
        extremes_line("voltage"@, t.voltage),
        extremes_line("ampere"@, t.ampere),
        extremes_line("wattage"@, t.wattage),
        extremes_line("power_factor"@, t.power_factor),
        last,
    ];
    lemma_summary_lines(count, t);
    lemma_extremes_line("voltage"@, t.voltage);
    lemma_extremes_line("ampere"@, t.ampere);
    lemma_extremes_line("wattage"@, t.wattage);
    lemma_extremes_line("power_factor"@, t.power_factor);
    text::lemma_lines_of(list);
    assert(summary(count, t) == text::ended(list, end)) by {
        let (a, b, c, d) = (list[1] + end, list[2] + end, list[3] + end, list[4] + end);
        assert(summary(count, t) =~= (first + end) + a + b + c + d + (last + end));
        lemma_six_lines(list, end);
    }
}

proof fn lemma_six_lines(list: Seq<Seq<char>>, end: Seq<char>)
    requires
        list.len() == 6,
    ensures
        text::ended(list, end) == (list[0] + end) + (list[1] + end) + (list[2] + end) + (list[3]
            + end) + (list[4] + end) + (list[5] + end),
{
    let (x, y) = (list.take(3), list.skip(3));
    assert(list =~= x + y);
    text::lemma_ended_sum(x, y, end);
    lemma_three_lines(x, end);
    lemma_three_lines(y, end);
    assert(text::ended(list, end) =~= (list[0] + end) + (list[1] + end) + (list[2] + end) + (list[3]
        + end) + (list[4] + end) + (list[5] + end));
}

proof fn lemma_three_lines(list: Seq<Seq<char>>, end: Seq<char>)
    requires
        list.len() == 3,
    ensures
        text::ended(list, end) == (list[0] + end) + (list[1] + end) + (list[2] + end),
{
    let (x, y, z) = (seq![list[0]], seq![list[1]], seq![list[2]]);
    assert(list =~= x + y + z);
    text::lemma_ended_sum(x + y, z, end);
    text::lemma_ended_sum(x, y, end);
    text::lemma_ended_one(list[0], end);
    text::lemma_ended_one(list[1], end);
    text::lemma_ended_one(list[2], end);
}

proof fn lemma_extremes_line(name: Seq<char>, c: ChannelText)
    ensures
        summary_line(name, c) == extremes_line(name, c) + seq!['\n'],
        text::one_line(name) && channel_is_printed(c) ==> text::one_line(extremes_line(name, c)),
{
    reveal_strlit(": min=");
    reveal_strlit("  max=");
    reveal_strlit("  avg=");
    reveal_strlit("\n");
    assert("\n"@ =~= seq!['\n']);
    assert(summary_line(name, c) =~= extremes_line(name, c) + seq!['\n']);
    if text::one_line(name) && channel_is_printed(c) {
        text::lemma_one_line_sum(name, ": min="@);
        text::lemma_one_line_sum(name + ": min="@, c.min@);
        text::lemma_one_line_sum(name + ": min="@ + c.min@, "  max="@);
        text::lemma_one_line_sum(name + ": min="@ + c.min@ + "  max="@, c.max@);
        text::lemma_one_line_sum(name + ": min="@ + c.min@ + "  max="@ + c.max@, "  avg="@);
        text::lemma_one_line_sum(
            name + ": min="@ + c.min@ + "  max="@ + c.max@ + "  avg="@,
            c.avg@,
        );
    }
}

proof fn lemma_summary_lines(count: nat, t: SummaryText)
    requires
        summary_is_printed(t),
    ensures
        text::one_line("voltage"@),
        text::one_line("ampere"@),
        text::one_line("wattage"@),
        text::one_line("power_factor"@),
        text::one_line("--- summary ("@ + text::decimal(count) + "-sample run) ---"@),
        text::one_line("energy: "@ + t.energy@ + " Wh"@),
        "-sample run) ---\n"@ == "-sample run) ---"@ + seq!['\n'],
        " Wh\n"@ == " Wh"@ + seq!['\n'],
{
    reveal_strlit("voltage");
    reveal_strlit("ampere");
    reveal_strlit("wattage");
    reveal_strlit("power_factor");
    reveal_strlit("--- summary (");
    reveal_strlit("-sample run) ---");
    reveal_strlit("-sample run) ---\n");
    reveal_strlit("energy: ");
    reveal_strlit(" Wh");
    reveal_strlit(" Wh\n");
    assert("-sample run) ---\n"@ =~= "-sample run) ---"@ + seq!['\n']);
    assert(" Wh\n"@ =~= " Wh"@ + seq!['\n']);
    text::lemma_integer_is_printed(count as int);
    text::lemma_printed_lacks(text::integer(count as int));
    text::lemma_one_line_sum("--- summary ("@, text::decimal(count));
    text::lemma_one_line_sum("--- summary ("@ + text::decimal(count), "-sample run) ---"@);
    text::lemma_one_line_sum("energy: "@, t.energy@);
    text::lemma_one_line_sum("energy: "@ + t.energy@, " Wh"@);
}

/// What is printed of a measurement, given whether one was printed before it.
pub open spec fn shown(
    format: OutputFormat,
    prefix: Seq<char>,
    started: bool,
    m: Rendered,
) -> Seq<char> {
    (if started {
        Seq::empty()
    } else {
        header(format, prefix)
    }) + body(format, prefix, m)
}

/// What is printed of a measurement is the same every time but the first, when a
/// header may stand before it; the header is the same whatever is measured, and
/// only CSV and Prometheus have one.
pub proof fn a_header_stands_before_the_first(
    format: OutputFormat,
    prefix: Seq<char>,
    m: Rendered,
)
    ensures
        shown(format, prefix, true, m) == body(format, prefix, m),
        shown(format, prefix, false, m) == header(format, prefix) + shown(format, prefix, true, m),
        !(format is Csv) && !(format is Prometheus) ==> shown(format, prefix, false, m) == shown(
            format,
            prefix,
            true,
            m,
        ),
        header(OutputFormat::Csv, prefix) == csv_header(),
        header(OutputFormat::Prometheus, prefix) == prometheus_header(prefix),
{
    let (f, p) = (format, prefix);
    assert(Seq::<char>::empty() + body(f, p, m) =~= body(f, p, m));
}

} // verus!
