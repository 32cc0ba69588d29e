//! Tests of the rev-update pipeline: locating the ultron block, extracting
//! the pinned rev, and rewriting it in place.

use green::deployments::deploy_ultron;
use green::nix::get_rev;
use green::nix::get_ultron_block;
use green::nix::update_ultron_rev;
use green::nix::NixError;
use green::route::Route;
use green::text::Span;
use green::text::SpanError;

const GOOD_FLAKE: &str = "{\n  description = \"a home server\";\n\n  inputs = {\n    nixpkgs.url = \"github:NixOS/nixpkgs/nixos-unstable\";\n\n    ultron = {\n      type = \"github\";\n      owner = \"covercash2\";\n      repo = \"ultron\";\n      rev = \"0875adf8d630246ac3d0c338157a5b89fa0c57a8\";\n      # Make ultron use the same nixpkgs to avoid conflicts\n      inputs.nixpkgs.follows = \"nixpkgs\";\n    };\n  };\n\n  outputs = { self, nixpkgs, ultron }: {\n    nixosConfigurations = { };\n  };\n}\n";

const GOOD_BLOCK: &str = "{\n      type = \"github\";\n      owner = \"covercash2\";\n      repo = \"ultron\";\n      rev = \"0875adf8d630246ac3d0c338157a5b89fa0c57a8\";\n      # Make ultron use the same nixpkgs to avoid conflicts\n      inputs.nixpkgs.follows = \"nixpkgs\";\n    }";

#[test]
fn get_ultron_current_rev_happy_path() {
    let ultron_block =
        get_ultron_block(Span::from(GOOD_FLAKE.as_bytes())).expect("failed to get ultron block");

    assert_eq!(ultron_block.as_str(), GOOD_BLOCK.as_bytes());

    let rev = get_rev(ultron_block).expect("failed to get rev");

    assert_eq!(rev.as_str(), b"0875adf8d630246ac3d0c338157a5b89fa0c57a8");
}

#[test]
fn update_ultron_rev_happy_path() {
    let new_rev = "0000000000000000000000000000000000000000";

    let new_flake =
        update_ultron_rev(GOOD_FLAKE, new_rev).expect("failed to update ultron rev");

    let updated_rev = get_rev(
        get_ultron_block(Span::from(new_flake.as_bytes())).expect("failed to get ultron block"),
    )
    .expect("failed to get rev");

    assert_eq!(
        updated_rev.as_str(),
        b"0000000000000000000000000000000000000000"
    );

    assert_eq!(updated_rev.as_str(), new_rev.as_bytes());

    assert_eq!(new_flake.len(), GOOD_FLAKE.len());
}

#[test]
fn update_swaps_only_the_rev() {
    let input = "inputs:\nultron = {\n  type = \"github\";\n  rev = \"0875adf8d630246ac3d0c338157a5b89fa0c57a8\";\n}\ntrailer";
    let new_rev = "0000000000000000000000000000000000000000";
    let expected = "inputs:\nultron = {\n  type = \"github\";\n  rev = \"0000000000000000000000000000000000000000\";\n}\ntrailer";

    let updated = update_ultron_rev(input, new_rev).expect("failed to update ultron rev");

    assert_eq!(updated, expected);
    assert_eq!(updated.len(), input.len());
}

#[test]
fn update_of_empty_document_fails_empty() {
    let result = update_ultron_rev("", "0000");
    assert!(matches!(result, Err(NixError::Empty)));
}

#[test]
fn update_without_block_label_reports_the_keyphrase() {
    match update_ultron_rev("nothing relevant here", "0000") {
        Err(NixError::SpanError(SpanError::NotFound(k))) => assert_eq!(k, "ultron = "),
        other => panic!("expected NotFound, got {other:?}"),
    }
}

#[test]
fn update_without_rev_label_reports_the_keyphrase() {
    match update_ultron_rev("ultron = { owner = \"covercash2\"; }", "0000") {
        Err(NixError::SpanError(SpanError::NotFound(k))) => assert_eq!(k, "rev = "),
        other => panic!("expected NotFound, got {other:?}"),
    }
}

#[test]
fn update_without_block_fails_rev_not_found() {
    let result = update_ultron_rev("ultron = plain, no braces", "0000");
    assert!(matches!(result, Err(NixError::RevNotFound)));
}

#[test]
fn update_with_unquoted_rev_fails_rev_not_found() {
    let result = update_ultron_rev("ultron = { rev = 5; }", "0000");
    assert!(matches!(result, Err(NixError::RevNotFound)));
}

#[test]
fn update_with_wrong_length_reports_both_lengths() {
    let input = "ultron = { rev = \"0875adf8d630246ac3d0c338157a5b89fa0c57a8\"; }";
    match update_ultron_rev(input, "123") {
        Err(NixError::SpanError(SpanError::ReplaceLengthMismatch { expected, found })) => {
            assert_eq!(expected, 40);
            assert_eq!(found, 3);
        }
        other => panic!("expected ReplaceLengthMismatch, got {other:?}"),
    }
}

#[test]
fn deploy_ultron_succeeds() {
    assert!(deploy_ultron().is_ok());
}

#[test]
fn static_routes_have_their_paths() {
    assert_eq!(Route::Home.as_str(), "/");
    assert_eq!(Route::Certificates.as_str(), "/api/ca");
    assert_eq!(Route::HealthCheck.as_str(), "/healthcheck");
}
