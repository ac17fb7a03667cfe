use rle_bitmap_compare::access_plan::PlanRepr;
use rle_bitmap_compare::cli::{
    parse_generate_args, parse_query_args, ArgError, GenerateArgs, GenerateCommand, QueryArgs,
    QueryCommand, Strategy,
};
use rle_bitmap_compare::Pattern;

fn words(line: &str) -> Vec<String> {
    line.split_whitespace().map(|w| w.to_string()).collect()
}

fn generate(line: &str) -> Result<GenerateCommand, ArgError> {
    parse_generate_args(&words(line), 8)
}

fn query(line: &str) -> Result<QueryCommand, ArgError> {
    parse_query_args(&words(line), 8)
}

#[test]
fn strategies_parse_by_name() {
    assert_eq!(Strategy::parse("rle"), Ok(Strategy::IndexRle));
    assert_eq!(Strategy::parse("bitmap"), Ok(Strategy::IndexBitmap));
    assert_eq!(Strategy::parse("no-index"), Ok(Strategy::NoIndex));
    assert_eq!(
        Strategy::parse("noindex"),
        Err("unknown --strategy: noindex (rle|bitmap|no-index)".to_string())
    );
    assert_eq!(
        Strategy::parse("RLE"),
        Err("unknown --strategy: RLE (rle|bitmap|no-index)".to_string())
    );
}

#[test]
fn strategies_have_labels_and_encodings() {
    assert_eq!(Strategy::IndexRle.label(), "with FTS index (RLE)");
    assert_eq!(Strategy::IndexBitmap.label(), "with FTS index (bitmap)");
    assert_eq!(Strategy::NoIndex.label(), "no index (post-filter)");
    assert_eq!(Strategy::IndexRle.plan_repr(), Some(PlanRepr::Rle));
    assert_eq!(Strategy::IndexBitmap.plan_repr(), Some(PlanRepr::Bitmap));
    assert_eq!(Strategy::NoIndex.plan_repr(), None);
}

#[test]
fn generate_has_defaults() {
    assert_eq!(
        generate(""),
        Ok(GenerateCommand::Run(GenerateArgs { files: 40, threads: 8 }))
    );
}

#[test]
fn generate_takes_files_and_threads() {
    assert_eq!(
        generate("--threads 3 --files 100"),
        Ok(GenerateCommand::Run(GenerateArgs { files: 100, threads: 3 }))
    );
    assert_eq!(
        generate("--files 1 --files 2"),
        Ok(GenerateCommand::Run(GenerateArgs { files: 2, threads: 8 }))
    );
}

#[test]
fn generate_helps() {
    assert_eq!(generate("-h"), Ok(GenerateCommand::Help));
    assert_eq!(generate("--files 3 --help --nonsense"), Ok(GenerateCommand::Help));
}

#[test]
fn generate_refuses_mistakes() {
    assert_eq!(generate("--files"), Err(ArgError::MissingValue(0)));
    assert_eq!(generate("--files 3 --threads"), Err(ArgError::MissingValue(2)));
    assert_eq!(generate("--files many"), Err(ArgError::BadNumber(1)));
    assert_eq!(generate("--files -1"), Err(ArgError::BadNumber(1)));
    assert_eq!(generate("--repeats 2"), Err(ArgError::Unknown(0)));
    assert_eq!(generate("3"), Err(ArgError::Unknown(0)));
    assert_eq!(generate("--nonsense -h"), Err(ArgError::Unknown(0)));
}

#[test]
fn query_has_defaults() {
    assert_eq!(
        query("--pattern fragmented --strategy bitmap"),
        Ok(QueryCommand::Run(QueryArgs {
            files: 40,
            threads: 8,
            repeats: 5,
            pattern: Pattern::Fragmented,
            strategy: Strategy::IndexBitmap,
        }))
    );
}

#[test]
fn query_takes_all_options() {
    assert_eq!(
        query("--repeats 0 --strategy no-index --files 100 --threads 2 --pattern clustered --strategy rle"),
        Ok(QueryCommand::Run(QueryArgs {
            files: 100,
            threads: 2,
            repeats: 0,
            pattern: Pattern::Clustered,
            strategy: Strategy::IndexRle,
        }))
    );
}

#[test]
fn query_helps() {
    assert_eq!(query("-h"), Ok(QueryCommand::Help));
    assert_eq!(query("--pattern clustered --help"), Ok(QueryCommand::Help));
}

#[test]
fn query_needs_pattern_and_strategy() {
    assert_eq!(query(""), Err(ArgError::NoPattern));
    assert_eq!(query("--strategy rle"), Err(ArgError::NoPattern));
    assert_eq!(query("--pattern clustered"), Err(ArgError::NoStrategy));
}

#[test]
fn query_refuses_mistakes() {
    assert_eq!(query("--pattern"), Err(ArgError::MissingValue(0)));
    assert_eq!(query("--pattern dotted"), Err(ArgError::BadPattern(1)));
    assert_eq!(query("--strategy --pattern"), Err(ArgError::BadStrategy(1)));
    assert_eq!(query("--files 1 --repeats x"), Err(ArgError::BadNumber(3)));
    assert_eq!(query("--verbose"), Err(ArgError::Unknown(0)));
}
