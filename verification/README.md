# architect

A verified library for plans drawn as flowcharts: steps that are argued out one by
one, locked once they are settled, and then carried out under the control of the
application rather than of the model that does the work.

Everything under `src/` is written in Verus. Each function states what it returns or
changes over mathematical models of plans and texts (`model`, `text`), and public
proof functions whose names start with `law_` state what holds of the library as a
whole.

| Part | Modules |
| --- | --- |
| Plans | `graph`, `model`, `edit`, `path`, `mutate`, `locks`, `problems`, `search`, `layout`, `id_map` |
| Drafting | `draft`, `merge`, `outline`, `draft_plan`, `refine_step` |
| Running | `run`, `runner`, `prompt`, `verdict`, `compile`, `complete_step`, `starting` |
| Research tools | `git`, `pull_request`, `inspection`, `web`, `limit`, `capability`, `ask_question`, `form` |
| Canvas | `canvas`, `input`, `cards`, `extent`, `header`, `panel`, `inspector`, `outline_panel`, `workspace` |
| Installation | `cli` |

Calls into other crates stand behind small wrappers whose contracts are taken on
trust: URLs and JSON in `web`, forms in `form`, random ids in `canvas`, lower case in
`panel`, and `String::push` of the standard library in `text`.

`tests/` runs the library on concrete values. `app/` is the ordinary Rust around it:
serialisation, network requests, the file system, prompts to a model, and geometry in
floating point.
