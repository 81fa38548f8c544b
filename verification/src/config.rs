//! The settings of a run.
use crate::binary64::{ratio, real_of, spec_ratio, spec_real, Real};
use crate::text::{chars_of, is_text, lower_case, lowered, trim, trimmed};
use vstd::prelude::*;
use vstd::string::*;

verus! {

/// Whether customers choose alone or as members of a group.
#[derive(Clone, Copy, Debug, PartialEq, Eq, Structural)]
pub enum CustomerMode {
    /// Every customer chooses alone.
    Individual,
    /// Customers deliberate in groups.
    Group,
}

impl CustomerMode {
    pub open spec fn spec_label(self) -> Seq<char> {
        match self {
            CustomerMode::Individual => "individual"@,
            CustomerMode::Group => "group"@,
        }
    }

    /// The name of the mode.
    pub fn label(&self) -> (s: &'static str)
        ensures
            s@ == self.spec_label(),
    {
        match self {
            CustomerMode::Individual => "individual",
            CustomerMode::Group => "group",
        }
    }
}

/// The mode that a word names, white space and the case of letters aside.
pub open spec fn mode_named(s: Seq<char>) -> Option<CustomerMode> {
    let word = lowered(trimmed(s));
    if word == "individual"@ || word == "indiv"@ || word == "single"@ {
        Some(CustomerMode::Individual)
    } else if word == "group"@ || word == "grouped"@ {
        Some(CustomerMode::Group)
    } else {
        None
    }
}

/// The mode that a word names; a message that quotes the word where it names none.
pub fn parse_customer_mode(s: &str) -> (r: Result<CustomerMode, String>)
    ensures
        match r {
            Ok(mode) => mode_named(s@) == Some(mode),
            Err(message) => mode_named(s@) is None && message@
                == "不正な顧客構成モード: \""@ + s@ + "\" (individual / group)"@,
        },
{
    let word = lower_case(&trim(&chars_of(s)));
    if is_text(&word, "individual") || is_text(&word, "indiv") || is_text(&word, "single") {
        Ok(CustomerMode::Individual)
    } else if is_text(&word, "group") || is_text(&word, "grouped") {
        Ok(CustomerMode::Group)
    } else {
        let mut message = "不正な顧客構成モード: \"".to_owned();
        message.append(s);
        message.append("\" (individual / group)");
        Err(message)
    }
}

/// The name of a mode names it.
pub proof fn labels_name_their_modes(mode: CustomerMode)
    ensures
        mode_named(mode.spec_label()) == Some(mode),
{
    let s = mode.spec_label();
    reveal_strlit("individual");
    reveal_strlit("group");
    reveal_strlit("indiv");
    reveal_strlit("single");
    reveal_strlit("grouped");
    assert(trimmed(s) == s);
    assert(lowered(s) =~= s);
}

/// The settings of the language model.
#[derive(Clone, Debug)]
pub struct LlmSettings {
    /// The sampling temperature.
    pub temperature: Real,
    /// The seed handed to the model.
    pub seed: u64,
    /// Where replies are cached; nowhere but in memory if absent.
    pub cache_path: Option<String>,
}

impl LlmSettings {
    /// Temperature zero, seed zero, and a cache in memory.
    pub open spec fn is_default(self) -> bool {
        self.temperature == Real { bits: 0 } && self.seed == 0 && self.cache_path is None
    }
}

impl Default for LlmSettings {
    fn default() -> (r: Self)
        ensures
            r.is_default(),
    {
        LlmSettings { temperature: Real { bits: 0 }, seed: 0, cache_path: None }
    }
}

/// The settings of one run.
#[derive(Clone, Debug)]
pub struct Config {
    /// How many restaurants compete.
    pub n_firms: usize,
    /// How many customers choose among them.
    pub n_customers: usize,
    pub customer_mode: CustomerMode,
    /// How many customers make a group, in the group mode.
    pub group_size: usize,
    /// How many days the run lasts at most.
    pub days: usize,
    /// The funds of a restaurant at the start, about.
    pub init_funds: Real,
    /// How many dishes a restaurant starts with.
    pub init_menu_size: usize,
    /// The price of a dish at the start, about.
    pub init_price: Real,
    /// The cost of a dish as a part of its price.
    pub init_cost_ratio: Real,
    pub init_chef_salary: Real,
    /// What a customer can spend in a day, about.
    pub customer_income: Real,
    /// The seed of the run; drawn if absent.
    pub seed: Option<u64>,
    pub llm: LlmSettings,
    /// Where results go.
    pub output_dir: String,
}

impl Default for Config {
    fn default() -> (r: Self)
        ensures
            r.n_firms == 2,
            r.n_customers == 50,
            r.customer_mode == CustomerMode::Individual,
            r.group_size == 4,
            r.days == 15,
            r.init_funds == spec_real(100_000),
            r.init_menu_size == 4,
            r.init_price == spec_real(4_000),
            r.init_cost_ratio == spec_ratio(4, 10),
            r.init_chef_salary == spec_real(2_000),
            r.customer_income == spec_real(8_000),
            r.seed == Some(42u64),
            r.llm.is_default(),
            r.output_dir@ == "results"@,
    {
        Config {
            n_firms: 2,
            n_customers: 50,
            customer_mode: CustomerMode::Individual,
            group_size: 4,
            days: 15,
            init_funds: real_of(100_000),
            init_menu_size: 4,
            init_price: real_of(4_000),
            init_cost_ratio: ratio(4, 10),
            init_chef_salary: real_of(2_000),
            customer_income: real_of(8_000),
            seed: Some(42),
            llm: LlmSettings::default(),
            output_dir: "results".to_owned(),
        }
    }
}

/// What is recorded of the settings of a run.
#[derive(Debug)]
pub struct RunConfigJson {
    pub command: &'static str,
    pub n_firms: usize,
    pub n_customers: usize,
    pub customer_mode: String,
    pub group_size: usize,
    pub days: usize,
    pub init_funds: Real,
    pub init_menu_size: usize,
    pub init_price: Real,
    pub init_cost_ratio: Real,
    pub init_chef_salary: Real,
    pub customer_income: Real,
    pub seed: Option<u64>,
    pub llm_temperature: Real,
    pub llm_seed: u64,
    pub output_dir: String,
}

impl Config {
    /// What is recorded of these settings.
    pub fn to_run_config_json(&self) -> (r: RunConfigJson)
        ensures
            r.command@ == "run"@,
            r.n_firms == self.n_firms,
            r.n_customers == self.n_customers,
            r.customer_mode@ == self.customer_mode.spec_label(),
            r.group_size == self.group_size,
            r.days == self.days,
            r.init_funds == self.init_funds,
            r.init_menu_size == self.init_menu_size,
            r.init_price == self.init_price,
            r.init_cost_ratio == self.init_cost_ratio,
            r.init_chef_salary == self.init_chef_salary,
            r.customer_income == self.customer_income,
            r.seed == self.seed,
            r.llm_temperature == self.llm.temperature,
            r.llm_seed == self.llm.seed,
            r.output_dir@ == self.output_dir@,
    {
        RunConfigJson {
            command: "run",
            n_firms: self.n_firms,
            n_customers: self.n_customers,
            customer_mode: self.customer_mode.label().to_owned(),
            group_size: self.group_size,
            days: self.days,
            init_funds: self.init_funds,
            init_menu_size: self.init_menu_size,
            init_price: self.init_price,
            init_cost_ratio: self.init_cost_ratio,
            init_chef_salary: self.init_chef_salary,
            customer_income: self.customer_income,
            seed: self.seed,
            llm_temperature: self.llm.temperature,
            llm_seed: self.llm.seed,
            output_dir: self.output_dir.clone(),
        }
    }
}

} // verus!
