# notify_cli

The logic of the `notify` command-line tool (Slack webhooks, Gmail REST API email, desktop
notifications, message boxes, account profiles), written in Verus with its contracts proved.

- `src/` is the verified library: configuration profiles and their lookup, account resolution,
  account management decisions, Slack payloads and webhook masking, recipients, HTML-to-text
  conversion, MIME messages, Base64, HTTP requests and the meaning of their answers, error
  categories, UTC timestamps, and the command lines that show notifications.
- `src/` also states the library's laws as public proof functions (`law_*`).
- `app/` is the program around it: argument parsing, files, the secret store, HTTP, running
  processes, and printing results as YAML or JSON.
- `tests/` exercises the library on concrete values.
